//! The shells that scotty integrates with, and the script that hooks it in.

use vstd::prelude::*;

verus! {

/// A supported shell.
#[derive(Debug, Clone, Copy, PartialEq, Eq, Structural)]
pub enum Shell {
    Zsh,
    Bash,
}

/// Why a shell could not be told from its name.
#[derive(Debug, PartialEq, Eq)]
pub enum ShellError {
    /// The name is that of no supported shell.
    UnknownShellName { name: String },
}

/// The word that stands for the program's own path in a shell script.
pub const SCOTTY_TOKEN: &'static str = "__SCOTTY__";

/// The script that hooks scotty into zsh.
pub const ZSH_INIT: &'static str = r#"# Records every directory change in the index.
__scotty_record() {
    __SCOTTY__ add "${PWD}"
}

autoload -Uz add-zsh-hook
add-zsh-hook chpwd __scotty_record

# Jumps to the directory that matches best.
s() {
    local __scotty_target
    __scotty_target="$(__SCOTTY__ search --exclude "${PWD}" "$@")" || return $?
    builtin cd "${__scotty_target}"
}
"#;

/// The script that hooks scotty into bash.
pub const BASH_INIT: &'static str = r#"# Records the current directory in the index whenever it has changed.
__scotty_record() {
    if [ "${__scotty_last:-}" != "${PWD}" ]; then
        __scotty_last="${PWD}"
        __SCOTTY__ add "${PWD}"
    fi
}

case ";${PROMPT_COMMAND:-};" in
    *";__scotty_record;"*) ;;
    *) PROMPT_COMMAND="__scotty_record${PROMPT_COMMAND:+;${PROMPT_COMMAND}}" ;;
esac

# Jumps to the directory that matches best.
s() {
    local __scotty_target
    __scotty_target="$(__SCOTTY__ search --exclude "${PWD}" "$@")" || return $?
    builtin cd "${__scotty_target}"
}
"#;

/// What `str::to_lowercase` makes of a text.
pub uninterp spec fn lowercase_of(text: Seq<char>) -> Seq<char>;

/// Whether `char::is_whitespace` holds of a character.
pub uninterp spec fn is_whitespace(c: char) -> bool;

/// The text without the whitespace at its start.
pub open spec fn trimmed_start(text: Seq<char>) -> Seq<char>
    decreases text.len(),
{
    if text.len() > 0 && is_whitespace(text[0]) {
        trimmed_start(text.drop_first())
    } else {
        text
    }
}

/// The text without the whitespace at its end.
pub open spec fn trimmed_end(text: Seq<char>) -> Seq<char>
    decreases text.len(),
{
    if text.len() > 0 && is_whitespace(text.last()) {
        trimmed_end(text.drop_last())
    } else {
        text
    }
}

/// The text without the whitespace at either end.
pub open spec fn trimmed(text: Seq<char>) -> Seq<char> {
    trimmed_end(trimmed_start(text))
}

/// The text with every occurrence of `token` replaced by `with`, found from
/// left to right, each starting where the last one ended.
pub open spec fn replaced(text: Seq<char>, token: Seq<char>, with: Seq<char>) -> Seq<char>
    recommends
        token.len() > 0,
    decreases text.len(),
{
    if token.len() == 0 || text.len() < token.len() {
        text
    } else if text.subrange(0, token.len() as int) == token {
        with + replaced(text.subrange(token.len() as int, text.len() as int), token, with)
    } else {
        seq![text[0]] + replaced(text.drop_first(), token, with)
    }
}

/// `str::to_lowercase`.
#[verifier::external_body]
fn to_lowercase(text: &str) -> (lower: String)
    ensures
        lower@ == lowercase_of(text@),
{
    text.to_lowercase()
}

/// `char::is_whitespace`.
#[verifier::external_body]
fn char_is_whitespace(c: char) -> (white: bool)
    ensures
        white == is_whitespace(c),
{
    c.is_whitespace()
}

/// Whether two texts are the same.
pub fn same_text(a: &str, b: &str) -> (same: bool)
    ensures
        same == (a@ == b@),
{
    String::from_str(a) == String::from_str(b)
}

/// Replaces every occurrence of `token` in `text` by `with`. The occurrences
/// are found from left to right, each starting where the last one ended. An
/// empty token occurs nowhere.
pub fn replace_all(text: &str, token: &str, with: &str) -> (changed: String)
    ensures
        changed@ == replaced(text@, token@, with@),
{
    let total = text.unicode_len();
    let width = token.unicode_len();
    if width == 0 {
        return String::from_str(text);
    }
    let mut changed = String::new();
    let mut at: usize = 0;
    assert(text@.subrange(0, total as int) =~= text@);
    while at < total
        invariant
            at <= total,
            total == text@.len(),
            width == token@.len(),
            width > 0,
            replaced(text@, token@, with@) == changed@ + replaced(
                text@.subrange(at as int, total as int),
                token@,
                with@,
            ),
        decreases total - at,
    {
        let ghost rest = text@.subrange(at as int, total as int);
        let ghost before = changed@;
        if width <= total - at && same_text(text.substring_char(at, at + width), token) {
            proof {
                assert(rest.subrange(0, width as int) =~= text@.subrange(at as int, at + width));
                assert(rest.subrange(width as int, rest.len() as int) =~= text@.subrange(
                    at + width,
                    total as int,
                ));
            }
            changed.append(with);
            at += width;
            assert(changed@ + replaced(text@.subrange(at as int, total as int), token@, with@)
                =~= before + (with@ + replaced(
                text@.subrange(at as int, total as int),
                token@,
                with@,
            )));
        } else {
            proof {
                assert(rest.drop_first() =~= text@.subrange(at + 1, total as int));
                assert(text@.subrange(at as int, at + 1) =~= seq![rest[0]]);
                if width <= total - at {
                    assert(rest.subrange(0, width as int) =~= text@.subrange(
                        at as int,
                        at + width,
                    ));
                } else {
                    assert(rest =~= seq![rest[0]] + rest.drop_first());
                }
            }
            changed.append(text.substring_char(at, at + 1));
            at += 1;
            assert(changed@ + replaced(text@.subrange(at as int, total as int), token@, with@)
                =~= before + (seq![rest[0]] + replaced(
                text@.subrange(at as int, total as int),
                token@,
                with@,
            )));
        }
    }
    assert(changed@ + Seq::<char>::empty() =~= changed@);
    changed
}

/// Strips the whitespace from both ends of a text.
pub fn trim(text: &str) -> (inner: &str)
    ensures
        inner@ == trimmed(text@),
{
    let total = text.unicode_len();
    let mut start: usize = 0;
    assert(text@.subrange(0, total as int) =~= text@);
    while start < total && char_is_whitespace(text.get_char(start))
        invariant
            start <= total,
            total == text@.len(),
            trimmed_start(text@) == trimmed_start(text@.subrange(start as int, total as int)),
        decreases total - start,
    {
        proof {
            let rest = text@.subrange(start as int, total as int);
            assert(rest[0] == text@[start as int]);
            assert(rest.drop_first() =~= text@.subrange(start + 1, total as int));
        }
        start += 1;
    }
    assert(trimmed_start(text@) == text@.subrange(start as int, total as int)) by {
        let rest = text@.subrange(start as int, total as int);
        if start < total {
            assert(rest[0] == text@[start as int]);
        }
    }
    let mut end: usize = total;
    while end > start && char_is_whitespace(text.get_char(end - 1))
        invariant
            start <= end <= total,
            total == text@.len(),
            trimmed(text@) == trimmed_end(text@.subrange(start as int, end as int)),
        decreases end - start,
    {
        proof {
            let rest = text@.subrange(start as int, end as int);
            assert(rest.last() == text@[end - 1]);
            assert(rest.drop_last() =~= text@.subrange(start as int, end - 1));
        }
        end -= 1;
    }
    assert(trimmed(text@) == text@.subrange(start as int, end as int)) by {
        let rest = text@.subrange(start as int, end as int);
        if end > start {
            assert(rest.last() == text@[end - 1]);
        }
    }
    text.substring_char(start, end)
}

impl Shell {
    /// The shell whose name, in lower case and without surrounding
    /// whitespace, is `normal`.
    pub open spec fn named(normal: Seq<char>) -> Option<Shell> {
        if normal == "zsh"@ {
            Some(Shell::Zsh)
        } else if normal == "bash"@ {
            Some(Shell::Bash)
        } else {
            None
        }
    }

    /// The shell that a name as typed stands for: case and surrounding
    /// whitespace do not count.
    pub open spec fn spec_parse(name: Seq<char>) -> Option<Shell> {
        Shell::named(trimmed(lowercase_of(name)))
    }

    /// Tells the shell from a name that is already in lower case and trimmed.
    pub fn from_normalized(normal: &str) -> (shell: Option<Shell>)
        ensures
            shell == Shell::named(normal@),
    {
        let name = String::from_str(normal);
        if name == String::from_str("zsh") {
            Some(Shell::Zsh)
        } else if name == String::from_str("bash") {
            Some(Shell::Bash)
        } else {
            None
        }
    }

    /// The script that hooks scotty into this shell, with the token where the
    /// program's path belongs.
    pub open spec fn spec_script(self) -> Seq<char> {
        match self {
            Shell::Zsh => ZSH_INIT@,
            Shell::Bash => BASH_INIT@,
        }
    }

    /// The script that hooks scotty into this shell.
    pub fn script(&self) -> (text: &'static str)
        ensures
            text@ == self.spec_script(),
    {
        match self {
            Shell::Zsh => ZSH_INIT,
            Shell::Bash => BASH_INIT,
        }
    }

    /// The names of the supported shells.
    pub fn all_variants() -> (names: Vec<&'static str>)
        ensures
            names@.len() == 2,
            names@[0]@ == "zsh"@,
            names@[1]@ == "bash"@,
    {
        let mut names: Vec<&'static str> = Vec::new();
        names.push("zsh");
        names.push("bash");
        names
    }
}

impl TryFrom<&str> for Shell {
    type Error = ShellError;

    /// Tells the shell from its name, whatever its case and the whitespace
    /// round it. An unknown name comes back in the error, as it was typed.
    fn try_from(value: &str) -> (parsed: Result<Shell, ShellError>)
        ensures
            parsed matches Ok(shell) ==> Shell::spec_parse(value@) == Some(shell),
            parsed matches Err(ShellError::UnknownShellName { name }) ==> Shell::spec_parse(
                value@,
            ) is None && name@ == value@,
    {
        let lower = to_lowercase(value);
        match Shell::from_normalized(trim(lower.as_str())) {
            Some(shell) => Ok(shell),
            None => Err(ShellError::UnknownShellName { name: String::from_str(value) }),
        }
    }
}

impl vstd::std_specs::convert::TryFromSpecImpl<&str> for Shell {
    open spec fn obeys_try_from_spec() -> bool {
        false
    }

    open spec fn try_from_spec(v: &str) -> Result<Shell, ShellError> {
        arbitrary()
    }
}

/// Tells the shell from the name given on the command line.
pub fn parse_shell(shell: &str) -> (parsed: Result<Shell, ShellError>)
    ensures
        parsed matches Ok(found) ==> Shell::spec_parse(shell@) == Some(found),
        parsed matches Err(ShellError::UnknownShellName { name }) ==> Shell::spec_parse(shell@)
            is None && name@ == shell@,
{
    Shell::try_from(shell)
}

/// The path between double quotes, as it stands in the script.
pub open spec fn quoted(path: Seq<char>) -> Seq<char> {
    seq!['"'] + path + seq!['"']
}

/// Puts the program's path, in double quotes, wherever the script names the
/// token; the rest of the script stays as it is.
pub fn interpolate_scotty_path(script: &str, path: &str) -> (text: String)
    ensures
        text@ == replaced(script@, SCOTTY_TOKEN@, quoted(path@)),
{
    proof {
        reveal_strlit("__SCOTTY__");
        reveal_strlit("\"");
    }
    let mut quote = String::from_str("\"");
    quote.append(path);
    quote.append("\"");
    assert(quote@ =~= quoted(path@));
    replace_all(script, SCOTTY_TOKEN, quote.as_str())
}

/// The script that hooks scotty into `shell`, with the program's path put
/// in.
pub fn init_shell(shell: Shell, scotty_path: &str) -> (text: String)
    ensures
        text@ == replaced(shell.spec_script(), SCOTTY_TOKEN@, quoted(scotty_path@)),
{
    interpolate_scotty_path(shell.script(), scotty_path)
}

} // verus!
