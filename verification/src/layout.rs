//! The project's file layout, and the decision to refuse a legacy layout
//! before any command reads or writes project state.

use vstd::prelude::*;
use crate::text::{join, join_spec, push_all, views};

verus! {

/// The directory project state lives in.
pub const STATE_DIR: &'static str = ".drft";

/// The configuration file.
pub const CONFIG_FILE: &'static str = ".drft/config.toml";

/// The lock file.
pub const LOCK_FILE: &'static str = ".drft/lock.toml";

/// The configuration file of the legacy layout.
pub const LEGACY_CONFIG_FILE: &'static str = "drft.toml";

/// The lock file of the legacy layout.
pub const LEGACY_LOCK_FILE: &'static str = "drft.lock";

/// Which of the project's files are occupied (a path counts as occupied even
/// when it is a directory or a dangling symlink).
#[derive(Debug, Clone, Copy)]
pub struct LayoutState {
    pub current_config: bool,
    pub current_lock: bool,
    pub legacy_config: bool,
    pub legacy_lock: bool,
}

/// The migration steps a layout asks for, config first.
pub open spec fn migration_actions(s: LayoutState) -> Seq<Seq<char>> {
    let config: Seq<Seq<char>> = if s.legacy_config {
        if s.current_config {
            seq!["both `drft.toml` and `.drft/config.toml` exist; reconcile them manually because drft will not choose or overwrite either"@]
        } else {
            seq!["move `drft.toml` to `.drft/config.toml` (create `.drft` first)"@]
        }
    } else {
        Seq::empty()
    };
    let lock: Seq<Seq<char>> = if s.legacy_lock {
        if s.current_lock {
            seq!["both `drft.lock` and `.drft/lock.toml` exist; reconcile them manually because drft will not choose or overwrite either"@]
        } else {
            seq!["move `drft.lock` to `.drft/lock.toml` (create `.drft` first)"@]
        }
    } else {
        Seq::empty()
    };
    config + lock
}

/// The refusal a legacy layout earns: every migration step, one per line.
pub open spec fn migration_message(s: LayoutState) -> Seq<char> {
    "legacy drft project files require manual migration:\n- "@ + join_spec(migration_actions(s), "\n- "@)
        + "\ndrft did not modify any files; rerun the command after resolving every item"@
}

/// Refuse every unsafe, legacy or conflicting layout before a command reads
/// or writes project state: a state directory that is a symlink or another
/// file is refused first; then, when a legacy file is present, the refusal
/// names every step the migration needs in one error (drft never chooses
/// between two files or overwrites either); the layout is accepted otherwise.
pub fn reject_legacy(kind: StateDirKind, s: LayoutState) -> (r: Result<(), String>)
    ensures
        r is Ok <==> (kind != StateDirKind::Other && !s.legacy_config && !s.legacy_lock),
        r matches Err(m) ==> m@ == if kind == StateDirKind::Other {
            unsafe_state_dir_message()
        } else {
            migration_message(s)
        },
{
    validate_state_dir(kind)?;
    if !s.legacy_config && !s.legacy_lock {
        return Ok(());
    }
    let mut actions: Vec<String> = Vec::new();
    if s.legacy_config {
        let mut a = String::new();
        if s.current_config {
            push_all(&mut a, "both `drft.toml` and `.drft/config.toml` exist; reconcile them manually because drft will not choose or overwrite either");
        } else {
            push_all(&mut a, "move `drft.toml` to `.drft/config.toml` (create `.drft` first)");
        }
        actions.push(a);
    }
    let ghost after_config = views(actions@);
    if s.legacy_lock {
        let mut a = String::new();
        if s.current_lock {
            push_all(&mut a, "both `drft.lock` and `.drft/lock.toml` exist; reconcile them manually because drft will not choose or overwrite either");
        } else {
            push_all(&mut a, "move `drft.lock` to `.drft/lock.toml` (create `.drft` first)");
        }
        actions.push(a);
    }
    assert(views(actions@) =~= migration_actions(s));
    let joined = join(&actions, "\n- ");
    let mut m = String::new();
    push_all(&mut m, "legacy drft project files require manual migration:\n- ");
    push_all(&mut m, joined.as_str());
    push_all(&mut m, "\ndrft did not modify any files; rerun the command after resolving every item");
    Err(m)
}

/// Whether `a` occurs in `s` as a run of consecutive characters.
pub open spec fn occurs_in(a: Seq<char>, s: Seq<char>) -> bool {
    exists|i: int| 0 <= i <= s.len() - a.len() && #[trigger] s.subrange(i, i + a.len()) == a
}

/// A legacy layout is refused in one message that names every migration step
/// (one per legacy file present: a move when its counterpart is free, a
/// manual reconciliation when both exist) and says that no file was touched.
pub proof fn lemma_migration_names_every_step(s: LayoutState)
    ensures
        migration_actions(s).len() == (if s.legacy_config { 1int } else { 0 }) + (if s.legacy_lock {
            1int
        } else {
            0
        }),
        forall|k: int|
            0 <= k < migration_actions(s).len() ==> occurs_in(
                #[trigger] migration_actions(s)[k],
                migration_message(s),
            ),
        occurs_in("drft did not modify any files"@, migration_message(s)),
{
    let acts = migration_actions(s);
    let head = "legacy drft project files require manual migration:\n- "@;
    let sep = "\n- "@;
    let tail = "\ndrft did not modify any files; rerun the command after resolving every item"@;
    let note = "drft did not modify any files"@;
    let body = join_spec(acts, sep);
    let m = migration_message(s);
    assert(m == head + body + tail);
    reveal_strlit("\ndrft did not modify any files; rerun the command after resolving every item");
    reveal_strlit("drft did not modify any files");
    let h: int = head.len() as int;
    let at: int = h + body.len() + 1;
    assert(m.subrange(at, at + note.len()) =~= note);
    if acts.len() == 1 {
        assert(body == acts[0]);
        assert(m.subrange(h, h + acts[0].len()) =~= acts[0]);
    } else if acts.len() == 2 {
        assert(acts.drop_last().len() == 1);
        assert(join_spec(acts.drop_last(), sep) == acts[0]);
        assert(body == acts[0] + sep + acts[1]);
        assert(m.subrange(h, h + acts[0].len()) =~= acts[0]);
        let at1: int = h + acts[0].len() + sep.len();
        assert(m.subrange(at1, at1 + acts[1].len()) =~= acts[1]);
    }
}

/// `rel` joined onto `root` the way `Path::join` joins a relative path: no
/// separator after an empty root or one that already ends in `/`.
pub open spec fn join_path_spec(root: Seq<char>, rel: Seq<char>) -> Seq<char> {
    if root.len() == 0 || root.last() == '/' {
        root + rel
    } else {
        root + seq!['/'] + rel
    }
}

/// Join the relative path `rel` onto `root`.
pub fn join_path(root: &str, rel: &str) -> (out: String)
    ensures
        out@ == join_path_spec(root@, rel@),
{
    let mut out = String::new();
    push_all(&mut out, root);
    let cs = crate::text::chars_of(root);
    if cs.len() > 0 && cs[cs.len() - 1] != '/' {
        out.push('/');
    }
    push_all(&mut out, rel);
    out
}

/// The configuration file of the project rooted at `root`.
pub fn config_path(root: &str) -> (out: String)
    ensures
        out@ == join_path_spec(root@, CONFIG_FILE@),
{
    join_path(root, CONFIG_FILE)
}

/// The lock file of the project rooted at `root`.
pub fn lock_path(root: &str) -> (out: String)
    ensures
        out@ == join_path_spec(root@, LOCK_FILE@),
{
    join_path(root, LOCK_FILE)
}

/// The state directory of the project rooted at `root`.
pub fn state_dir(root: &str) -> (out: String)
    ensures
        out@ == join_path_spec(root@, STATE_DIR@),
{
    join_path(root, STATE_DIR)
}

/// What stands at the state directory's path, as `symlink_metadata` reports
/// it without following a symlink.
#[derive(Debug, Clone, Copy, PartialEq, Eq, Structural)]
pub enum StateDirKind {
    Absent,
    Directory,
    Other,
}

/// The refusal of a state directory that is a symlink or another file.
pub open spec fn unsafe_state_dir_message() -> Seq<char> {
    "unsafe drft state path: `.drft` must be a directory within the project, not a symlink or other file"@
}

/// Require project state to live in a real directory beneath the graph root
/// (or nowhere yet): following a `.drft` symlink would let a checkout
/// redirect config reads and lock writes outside the project.
pub fn validate_state_dir(kind: StateDirKind) -> (r: Result<(), String>)
    ensures
        r is Ok <==> kind != StateDirKind::Other,
        r matches Err(m) ==> m@ == unsafe_state_dir_message(),
{
    match kind {
        StateDirKind::Other => {
            let mut m = String::new();
            push_all(&mut m, "unsafe drft state path: `.drft` must be a directory within the project, not a symlink or other file");
            Err(m)
        },
        _ => Ok(()),
    }
}

/// Whether the current configuration file exists, once the state directory
/// is known to be safe.
pub fn current_config_exists(kind: StateDirKind, s: LayoutState) -> (r: Result<bool, String>)
    ensures
        kind == StateDirKind::Other ==> (r matches Err(m) && m@ == unsafe_state_dir_message()),
        kind != StateDirKind::Other ==> r == Ok::<bool, String>(s.current_config),
{
    validate_state_dir(kind)?;
    Ok(s.current_config)
}

/// Whether the current lock file exists, once the state directory is known
/// to be safe.
pub fn current_lock_exists(kind: StateDirKind, s: LayoutState) -> (r: Result<bool, String>)
    ensures
        kind == StateDirKind::Other ==> (r matches Err(m) && m@ == unsafe_state_dir_message()),
        kind != StateDirKind::Other ==> r == Ok::<bool, String>(s.current_lock),
{
    validate_state_dir(kind)?;
    Ok(s.current_lock)
}

/// Whether the project carries a configuration marker: the current
/// configuration file, or the legacy one.
pub fn has_config_marker(kind: StateDirKind, s: LayoutState) -> (r: Result<bool, String>)
    ensures
        kind == StateDirKind::Other ==> (r matches Err(m) && m@ == unsafe_state_dir_message()),
        kind != StateDirKind::Other ==> r == Ok::<bool, String>(s.current_config || s.legacy_config),
{
    let current = current_config_exists(kind, s)?;
    Ok(current || s.legacy_config)
}

} // verus!
