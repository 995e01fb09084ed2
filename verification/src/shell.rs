//! The shell hook: a `paru` function in the user's shell startup file that
//! checks packages before `paru -S` installs them.
use vstd::prelude::*;
use crate::text::{cat, append_chars, has_infix, has_suffix, occurs_at, path_join, path_join_chars, string_of, to_chars};

verus! {

broadcast use vstd::string::group_string_axioms;

/// The marker line that identifies the hook.
pub open spec fn mark() -> Seq<char> {
    "#### aur-guard: paru wrapper (comprobacion de malware antes de instalar) ####"@
}

/// The shell function installed after the marker.
pub open spec fn snippet() -> Seq<char> {
    SNIPPET@
}

pub const MARK: &'static str = "#### aur-guard: paru wrapper (comprobacion de malware antes de instalar) ####";

pub const SNIPPET: &'static str = "paru() {\n  if [[ \"$1\" == \"-S\" ]]; then\n    local _pkgs=() _a\n    for _a in \"${@:2}\"; do\n      [[ \"$_a\" == -* || -z \"$_a\" ]] && continue\n      _pkgs+=(\"$_a\")\n    done\n    if (( ${#_pkgs[@]} )); then\n      aur-guard install \"${_pkgs[@]}\" || {\n        echo \"aur-guard: instalacion bloqueada (paquete comprometido).\" >&2\n        return 1\n      }\n    fi\n  fi\n  command paru \"$@\"\n}\n";

/// The startup file the hook goes into: `.zshrc` when the shell is zsh,
/// `.bashrc` otherwise, in the home directory.
pub fn rc_path(shell: &str, home: &str) -> (r: String)
    ensures
        r@ == path_join(home@, if has_infix(shell@, "zsh"@) { ".zshrc"@ } else { ".bashrc"@ }),
{
    let h = to_chars(home);
    let name = if crate::text::contains(&to_chars(shell), &to_chars("zsh")) {
        to_chars(".zshrc")
    } else {
        to_chars(".bashrc")
    };
    string_of(path_join_chars(&h, &name).as_slice())
}

/// The startup file with the hook appended: a newline first unless the
/// text already ends with one, then the marker line and the function.
pub open spec fn with_hook(existing: Seq<char>) -> Seq<char> {
    let sep = if has_suffix(existing, "\n"@) { Seq::empty() } else { "\n"@ };
    existing + sep + mark() + "\n"@ + snippet() + "\n"@
}

/// Installing the hook into a startup file at `path`: nothing to write when
/// the marker is already there; otherwise the text with the hook appended.
pub open spec fn plan_shell_hook_spec(existing: Seq<char>, path: Seq<char>) -> (Option<Seq<char>>, Seq<char>) {
    if has_infix(existing, mark()) {
        (None, "el gancho de shell ya esta instalado en "@ + path)
    } else {
        (
            Some(with_hook(existing)),
            "gancho de shell instalado en "@ + path + ". Abre una terminal nueva para que aplique."@,
        )
    }
}

/// Installing the hook into the text of a startup file at `path` (see
/// `plan_shell_hook_spec`): the new text to write, if any, and the message.
pub fn plan_shell_hook(existing: &str, path: &str) -> (r: (Option<String>, String))
    ensures
        plan_shell_hook_spec(existing@, path@) == (
            match r.0 {
                Some(w) => Some(w@),
                None => None::<Seq<char>>,
            },
            r.1@,
        ),
{
    let e = to_chars(existing);
    let m = to_chars(MARK);
    if crate::text::contains(&e, &m) {
        return (None, cat("el gancho de shell ya esta instalado en ", path));
    }
    let nl = to_chars("\n");
    let mut content = if crate::text::ends_with(&e, &nl) {
        let c = append_chars(&e, &Vec::new());
        assert(c@ =~= e@ + Seq::<char>::empty());
        c
    } else {
        append_chars(&e, &nl)
    };
    content = append_chars(&content, &m);
    content = append_chars(&content, &nl);
    content = append_chars(&content, &to_chars(SNIPPET));
    content = append_chars(&content, &nl);
    let msg = cat(cat("gancho de shell instalado en ", path).as_str(), ". Abre una terminal nueva para que aplique.");
    (Some(string_of(content.as_slice())), msg)
}

/// Installing twice is installing once: the text written holds the marker,
/// so installing again writes nothing.
pub proof fn law_shell_hook_idempotent(existing: Seq<char>, path: Seq<char>)
    ensures
        has_infix(with_hook(existing), mark()),
        plan_shell_hook_spec(with_hook(existing), path).0 is None,
{
    let sep: Seq<char> = if has_suffix(existing, "\n"@) { Seq::empty() } else { "\n"@ };
    let w = with_hook(existing);
    let i = (existing + sep).len() as int;
    assert(w.subrange(i, i + mark().len()) =~= mark());
    assert(occurs_at(w, mark(), i));
}

} // verus!
