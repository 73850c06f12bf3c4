//! The shell function that makes `wt` change the shell's directory.

use vstd::prelude::*;
use crate::error::WtError;
use crate::text::{chars_of, same_text, string_of};

verus! {

/// The `wt` function for fish.
pub const FISH_ALIAS: &'static str = r#"function wt
    if test (count $argv) -gt 0; and contains -- $argv[1] list remove rm prefix alias help -h --help
        worktree $argv
        return
    end
    if test (count $argv) -gt 1; and contains -- $argv[2] -h --help
        worktree $argv
        return
    end
    set -l dir (worktree $argv)
    or return
    test -z "$dir"; or cd "$dir"
end"#;

/// The `wt` function for POSIX shells (bash, zsh, ...).
pub const POSIX_ALIAS: &'static str = r#"wt() {
    case "$1" in
        list|remove|rm|prefix|alias|help|-h|--help)
            worktree "$@"
            ;;
        *)
            case "$2" in
                -h|--help) worktree "$@" ;;
                *)
                    local dir
                    dir="$(worktree "$@")" || return
                    [ -z "$dir" ] || cd "$dir"
                    ;;
            esac
            ;;
    esac
}"#;

/// The part of `s` after its last `c`, or all of `s` (`s.rsplit(c).next()`).
pub open spec fn after_last(s: Seq<char>, c: char) -> Seq<char>
    decreases s.len(),
{
    if s.len() == 0 {
        s
    } else if s.last() == c {
        Seq::empty()
    } else {
        after_last(s.drop_last(), c).push(s.last())
    }
}

/// The shell's name: what follows the last `/` of `$SHELL`.
pub fn shell_name(shell_var: &str) -> (r: String)
    ensures
        r@ == after_last(shell_var@, '/'),
{
    let v = chars_of(shell_var);
    let mut i = v.len();
    assert(v@.take(i as int) =~= v@);
    assert(v@.skip(i as int) =~= Seq::<char>::empty());
    assert(after_last(v@, '/') + Seq::<char>::empty() =~= after_last(v@, '/'));
    while i > 0 && v[i - 1] != '/'
        invariant
            v@ == shell_var@,
            i <= v@.len(),
            forall|k: int| i <= k < v@.len() ==> v@[k] != '/',
            after_last(shell_var@, '/') == after_last(v@.take(i as int), '/') + v@.skip(i as int),
        decreases i,
    {
        let ghost t = v@.take(i as int);
        assert(t.drop_last() =~= v@.take(i - 1));
        assert(after_last(t, '/') == after_last(v@.take(i - 1), '/').push(v@[i - 1]));
        assert(v@.skip(i - 1) =~= seq![v@[i - 1]] + v@.skip(i as int));
        assert(after_last(v@.take(i - 1), '/').push(v@[i - 1]) + v@.skip(i as int) =~= after_last(
            v@.take(i - 1),
            '/',
        ) + v@.skip(i - 1));
        i = i - 1;
    }
    proof {
        let t = v@.take(i as int);
        if i > 0 {
            assert(t.last() == v@[i - 1]);
            assert(after_last(t, '/') == Seq::<char>::empty());
        } else {
            assert(t.len() == 0);
        }
    }
    let r = string_of(&v, i, v.len());
    assert(r@ =~= v@.skip(i as int));
    assert(after_last(shell_var@, '/') =~= v@.skip(i as int));
    r
}

/// The shell function for the shell named in `$SHELL`: the fish one when the
/// name is `fish`, the POSIX one otherwise; an error when `$SHELL` is unset.
pub fn alias_for_shell(shell_var: Option<&str>) -> (r: Result<&'static str, WtError>)
    ensures
        shell_var is None ==> (r matches Err(WtError::GitCommand(m))
            && m@ == "could not detect shell from $SHELL"@),
        shell_var matches Some(v) ==> (r matches Ok(a) && a@ == if after_last(v@, '/') == "fish"@ {
            FISH_ALIAS@
        } else {
            POSIX_ALIAS@
        }),
{
    match shell_var {
        None => Err(WtError::GitCommand("could not detect shell from $SHELL".to_string())),
        Some(v) => {
            let name = shell_name(v);
            if same_text(name.as_str(), "fish") {
                Ok(FISH_ALIAS)
            } else {
                Ok(POSIX_ALIAS)
            }
        },
    }
}

} // verus!
