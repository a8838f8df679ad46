//! File operations and version control: where a new file goes and what it
//! holds, where a moved or copied entry lands, which version control system
//! a directory uses, which commands an update runs, and what an update
//! reports.

use crate::config::{ensure_within_roots, outside_roots_message, root_index_for, ConfigStore};
use crate::external::{base64_decode, base64_standard_decoded, base64_standard_error};
use crate::paths::{
    absolute_in, file_name, file_name_in, file_name_of, is_absolute, is_absolute_path, join_path,
    joined, joined_in, is_win_sep, lemma_file_name_relative, lemma_join_within,
    lemma_join_within_windows, lemma_windows_file_name, no_parent_refs, slashes, win_disk, win_prefix_len, within_in,
    PathStyle,
};
use crate::text::{chars_of, str_equal, trim, trimmed};
use vstd::prelude::*;
use vstd::string::{StrSliceExecFns, StringExecFns};
use vstd::utf8::encode_utf8;

verus! {

/// A request to create a file.
pub struct CreateArgs {
    /// Absolute path of the directory to create it in.
    pub dir: String,
    pub name: String,
    pub content: String,
    /// `content` is base64 (standard alphabet) rather than the text itself.
    pub base64: bool,
}

/// Where a new file goes, or why it may not be created.
pub open spec fn create_target_result(
    style: PathStyle,
    config: Seq<crate::config::RootView>,
    dir: Seq<char>,
    name: Seq<char>,
) -> Result<Seq<char>, Seq<char>> {
    if name.len() == 0 {
        Err("missing name"@)
    } else if !absolute_in(style, dir) {
        Err("dir must be absolute"@)
    } else {
        let t = joined_in(style, dir, name);
        if root_index_for(style, config, t) is None {
            Err(outside_roots_message(t))
        } else {
            Ok(t)
        }
    }
}

/// Checks a create request and gives the path of the new file: the name
/// must not be empty, the directory must be absolute, and the joined path
/// must lie within a configured root.
pub fn create_file_target(store: &ConfigStore, args: &CreateArgs) -> (res: Result<String, String>)
    ensures
        match create_target_result(store.style(), store.config(), args.dir@, args.name@) {
            Ok(t) => res matches Ok(r) && r@ == t,
            Err(m) => res matches Err(e) && e@ == m,
        },
{
    let nc = chars_of(args.name.as_str());
    if nc.len() == 0 {
        return Err(String::from_str("missing name"));
    }
    let style = store.path_style();
    if !is_absolute_path(style, args.dir.as_str()) {
        return Err(String::from_str("dir must be absolute"));
    }
    let target = join_path(style, args.dir.as_str(), args.name.as_str());
    ensure_within_roots(store, target.as_str())?;
    Ok(target)
}

/// Refuses to create a file over an existing one.
pub fn create_target_free(exists: bool) -> (res: Result<(), String>)
    ensures
        res is Ok <==> !exists,
        res matches Err(e) ==> e@ == "file already exists"@,
{
    if exists {
        return Err(String::from_str("file already exists"));
    }
    Ok(())
}

/// The bytes a new file holds: the UTF-8 of `content`, or its base64
/// decoding (failing where the decoder fails, with the decoder's error
/// text).
pub fn create_file_bytes(args: &CreateArgs) -> (res: Result<Vec<u8>, String>)
    ensures
        !args.base64 ==> (res matches Ok(b) && b@ == encode_utf8(args.content@)),
        args.base64 ==> (res is Ok <==> base64_standard_decoded(encode_utf8(args.content@)) is Some),
        args.base64 ==> (res matches Ok(b) ==> base64_standard_decoded(encode_utf8(args.content@))
            == Some(b@)),
        args.base64 && base64_standard_decoded(encode_utf8(args.content@)) is None ==> (res matches Err(
            e,
        ) && e@ == base64_standard_error(encode_utf8(args.content@))),
{
    let raw = args.content.as_str().as_bytes_vec();
    if args.base64 {
        base64_decode(raw.as_slice())
    } else {
        Ok(raw)
    }
}

/// Where a moved or copied entry lands, or why it may not.
pub open spec fn transfer_target_result(
    style: PathStyle,
    config: Seq<crate::config::RootView>,
    src: Seq<char>,
    dest_dir: Seq<char>,
) -> Result<Seq<char>, Seq<char>> {
    match file_name_in(style, src) {
        None => Err("invalid src"@),
        Some(n) => {
            let d = joined_in(style, dest_dir, n);
            if root_index_for(style, config, src) is None {
                Err(outside_roots_message(src))
            } else if root_index_for(style, config, d) is None {
                Err(outside_roots_message(d))
            } else {
                Ok(d)
            }
        },
    }
}

/// Checks a move or copy of `src` into `dest_dir` and gives the
/// destination path: `src` must have a file name, and both `src` and the
/// destination must lie within configured roots.
pub fn transfer_target(store: &ConfigStore, src: &str, dest_dir: &str) -> (res: Result<
    String,
    String,
>)
    ensures
        match transfer_target_result(store.style(), store.config(), src@, dest_dir@) {
            Ok(t) => res matches Ok(r) && r@ == t,
            Err(m) => res matches Err(e) && e@ == m,
        },
{
    let style = store.path_style();
    let name = match file_name(style, src) {
        Some(n) => n,
        None => return Err(String::from_str("invalid src")),
    };
    let dest = join_path(style, dest_dir, name.as_str());
    ensure_within_roots(store, src)?;
    ensure_within_roots(store, dest.as_str())?;
    Ok(dest)
}

/// Every new file lies within a configured root. A new file whose name is
/// relative and holds no `..` piece lies within the directory it was asked
/// for: with Unix paths always, with Windows paths when the directory
/// begins with a drive and a separator and the name has no prefix. (An
/// absolute name replaces the directory, as `Path::join` does, and a name
/// that climbs with `..` is held to the configured roots only.)
pub proof fn lemma_create_target_within(
    style: PathStyle,
    config: Seq<crate::config::RootView>,
    dir: Seq<char>,
    name: Seq<char>,
)
    requires
        create_target_result(style, config, dir, name) is Ok,
    ensures
        root_index_for(style, config, create_target_result(style, config, dir, name)->Ok_0) is Some,
        style == PathStyle::Unix && !is_absolute(name) && no_parent_refs(name) ==> within_in(
            style,
            create_target_result(style, config, dir, name)->Ok_0,
            dir,
        ),
        style == PathStyle::Windows && win_disk(dir) && dir.len() >= 3 && is_win_sep(dir[2])
            && win_prefix_len(name) == 0 && !(name.len() > 0 && is_win_sep(name[0]))
            && no_parent_refs(slashes(name)) ==> within_in(
            style,
            create_target_result(style, config, dir, name)->Ok_0,
            dir,
        ),
{
    if style == PathStyle::Unix && !is_absolute(name) && no_parent_refs(name) {
        lemma_join_within(dir, name);
    }
    if style == PathStyle::Windows && win_disk(dir) && dir.len() >= 3 && is_win_sep(dir[2])
        && win_prefix_len(name) == 0 && !(name.len() > 0 && is_win_sep(name[0])) && no_parent_refs(
        slashes(name),
    ) {
        lemma_join_within_windows(dir, name);
    }
}

/// Both ends of a move or copy lie within configured roots, and the entry
/// lands in the destination directory under its own file name: with Unix
/// paths it lies within that directory; with Windows paths too, when the
/// directory begins with a drive and a separator and the file name does not
/// begin with a drive (`Path::join` lets such a name replace the directory).
pub proof fn lemma_transfer_target_within(
    style: PathStyle,
    config: Seq<crate::config::RootView>,
    src: Seq<char>,
    dest_dir: Seq<char>,
)
    requires
        transfer_target_result(style, config, src, dest_dir) is Ok,
    ensures
        root_index_for(style, config, src) is Some,
        root_index_for(style, config, transfer_target_result(style, config, src, dest_dir)->Ok_0) is Some,
        style == PathStyle::Unix ==> transfer_target_result(style, config, src, dest_dir)->Ok_0
            == joined(dest_dir, file_name_of(src).unwrap()),
        style == PathStyle::Unix ==> within_in(
            style,
            transfer_target_result(style, config, src, dest_dir)->Ok_0,
            dest_dir,
        ),
        style == PathStyle::Windows && win_disk(dest_dir) && dest_dir.len() >= 3 && is_win_sep(
            dest_dir[2],
        ) && win_prefix_len(file_name_in(style, src).unwrap()) == 0 ==> within_in(
            style,
            transfer_target_result(style, config, src, dest_dir)->Ok_0,
            dest_dir,
        ),
{
    if style == PathStyle::Unix {
        lemma_file_name_relative(src);
        lemma_join_within(dest_dir, file_name_of(src).unwrap());
    }
    if style == PathStyle::Windows && win_disk(dest_dir) && dest_dir.len() >= 3 && is_win_sep(
        dest_dir[2],
    ) && win_prefix_len(file_name_in(style, src).unwrap()) == 0 {
        let n = file_name_in(style, src).unwrap();
        lemma_windows_file_name(src);
        assert(!(n.len() > 0 && is_win_sep(n[0]))) by {
            if n.len() > 0 && is_win_sep(n[0]) {
                if n[0] == '/' {
                    assert(n.contains('/'));
                } else {
                    assert(n.contains('\\'));
                }
            }
        }
        lemma_join_within_windows(dest_dir, n);
    }
}

/// The error text when the destination of a move or copy exists.
pub open spec fn destination_exists_message() -> Seq<char> {
    "目标位置已存在同名文件"@
}

/// Refuses to move or copy onto an existing entry.
pub fn transfer_target_free(exists: bool) -> (res: Result<(), String>)
    ensures
        res is Ok <==> !exists,
        res matches Err(e) ==> e@ == destination_exists_message(),
{
    if exists {
        return Err(String::from_str("目标位置已存在同名文件"));
    }
    Ok(())
}

// ---------------------------------------------------------------------
// Version control
// ---------------------------------------------------------------------

/// The marker paths whose existence tells which version control system
/// manages `path` (`.git`, then `.svn`), once `path` is known to lie
/// within a configured root.
pub fn vcs_markers(store: &ConfigStore, path: &str) -> (res: Result<(String, String), String>)
    ensures
        root_index_for(store.style(), store.config(), path@) is Some ==> (res matches Ok((g, s)) && g@
            == joined_in(store.style(), path@, ".git"@) && s@ == joined_in(
            store.style(),
            path@,
            ".svn"@,
        )),
        root_index_for(store.style(), store.config(), path@) is None ==> (res matches Err(e) && e@
            == outside_roots_message(path@)),
{
    ensure_within_roots(store, path)?;
    let style = store.path_style();
    Ok((join_path(style, path, ".git"), join_path(style, path, ".svn")))
}

/// The version control system of a directory: `git` where a `.git` entry
/// exists (a directory, or a file for submodules and worktrees), else
/// `svn` where `.svn` exists, else the empty string.
pub fn vcs_kind(git_present: bool, svn_present: bool) -> (res: &'static str)
    ensures
        res@ == (if git_present {
            "git"@
        } else if svn_present {
            "svn"@
        } else {
            ""@
        }),
{
    if git_present {
        return "git";
    }
    if svn_present {
        return "svn";
    }
    ""
}

/// The argument lists an update runs, in order, for a kind (`git`, `svn`)
/// and a mode (`normal`, `discard`); `None` for any other pair.
///  - git, normal: `pull --ff-only`
///  - git, discard: `fetch --all`, then `reset --hard @{u}`
///  - svn, normal: `update`
///  - svn, discard: `revert -R .`, then `update`
pub open spec fn vcs_steps_spec(kind: Seq<char>, mode: Seq<char>) -> Option<Seq<Seq<Seq<char>>>> {
    if kind == "git"@ && mode == "normal"@ {
        Some(seq![seq!["pull"@, "--ff-only"@]])
    } else if kind == "git"@ && mode == "discard"@ {
        Some(seq![seq!["fetch"@, "--all"@], seq!["reset"@, "--hard"@, "@{u}"@]])
    } else if kind == "svn"@ && mode == "normal"@ {
        Some(seq![seq!["update"@]])
    } else if kind == "svn"@ && mode == "discard"@ {
        Some(seq![seq!["revert"@, "-R"@, "."@], seq!["update"@]])
    } else {
        None
    }
}

/// The text of a list of argument lists.
pub open spec fn steps_view(v: Seq<Vec<String>>) -> Seq<Seq<Seq<char>>> {
    v.map_values(|a: Vec<String>| a@.map_values(|s: String| s@))
}

fn strings_of(a: &str, b: &str, c: &str, n: usize) -> (res: Vec<String>)
    requires
        1 <= n <= 3,
    ensures
        res@.map_values(|s: String| s@) =~= (if n == 1 {
            seq![a@]
        } else if n == 2 {
            seq![a@, b@]
        } else {
            seq![a@, b@, c@]
        }),
{
    let mut v: Vec<String> = Vec::new();
    v.push(String::from_str(a));
    if n >= 2 {
        v.push(String::from_str(b));
    }
    if n >= 3 {
        v.push(String::from_str(c));
    }
    v
}

/// The commands an update runs, or the error for an unknown kind or mode.
pub fn vcs_steps(kind: &str, mode: &str) -> (res: Result<Vec<Vec<String>>, String>)
    ensures
        match vcs_steps_spec(kind@, mode@) {
            Some(steps) => res matches Ok(v) && steps_view(v@) == steps,
            None => res matches Err(e) && e@ == "unknown vcs kind/mode: "@ + kind@ + "/"@ + mode@,
        },
{
    let git = str_equal(kind, "git");
    let svn = str_equal(kind, "svn");
    let normal = str_equal(mode, "normal");
    let discard = str_equal(mode, "discard");
    let mut steps: Vec<Vec<String>> = Vec::new();
    if git && normal {
        steps.push(strings_of("pull", "--ff-only", "", 2));
    } else if git && discard {
        steps.push(strings_of("fetch", "--all", "", 2));
        steps.push(strings_of("reset", "--hard", "@{u}", 3));
    } else if svn && normal {
        steps.push(strings_of("update", "", "", 1));
    } else if svn && discard {
        steps.push(strings_of("revert", "-R", ".", 3));
        steps.push(strings_of("update", "", "", 1));
    } else {
        let e = String::from_str("unknown vcs kind/mode: ").concat(kind).concat("/").concat(mode);
        return Err(e);
    }
    assert(steps_view(steps@) =~= vcs_steps_spec(kind@, mode@).unwrap());
    Ok(steps)
}

/// The program an update runs: `git` for kind `git`, `svn` otherwise.
pub fn vcs_program(kind: &str) -> (res: &'static str)
    ensures
        res@ == (if kind@ == "git"@ {
            "git"@
        } else {
            "svn"@
        }),
{
    if str_equal(kind, "git") {
        "git"
    } else {
        "svn"
    }
}

/// What one command reports: its standard output followed by its standard
/// error, trimmed; on failure that text, or `<program> 退出码非 0` when it
/// is empty.
pub open spec fn run_outcome_spec(
    program: Seq<char>,
    stdout: Seq<char>,
    stderr: Seq<char>,
    success: bool,
) -> Result<Seq<char>, Seq<char>> {
    let combined = trimmed(stdout + stderr);
    if success {
        Ok(combined)
    } else if combined.len() == 0 {
        Err(program + " 退出码非 0"@)
    } else {
        Err(combined)
    }
}

/// A successful command reports what it wrote to standard output followed
/// by what it wrote to standard error, trimmed; a failed one reports that
/// same text as its error, or `<program> 退出码非 0` when the text is empty.
pub proof fn lemma_run_outcome_reports_both_streams(
    program: Seq<char>,
    stdout: Seq<char>,
    stderr: Seq<char>,
    success: bool,
)
    ensures
        success ==> run_outcome_spec(program, stdout, stderr, success) == Ok::<Seq<char>, Seq<char>>(
            trimmed(stdout + stderr),
        ),
        !success && trimmed(stdout + stderr).len() > 0 ==> run_outcome_spec(
            program,
            stdout,
            stderr,
            success,
        ) == Err::<Seq<char>, Seq<char>>(trimmed(stdout + stderr)),
        !success && trimmed(stdout + stderr).len() == 0 ==> run_outcome_spec(
            program,
            stdout,
            stderr,
            success,
        ) == Err::<Seq<char>, Seq<char>>(program + " 退出码非 0"@),
{
}

/// Reads the outcome of one command from what it wrote and whether it
/// exited successfully.
pub fn run_outcome(program: &str, stdout: &str, stderr: &str, success: bool) -> (res: Result<
    String,
    String,
>)
    ensures
        match run_outcome_spec(program@, stdout@, stderr@, success) {
            Ok(t) => res matches Ok(r) && r@ == t,
            Err(t) => res matches Err(r) && r@ == t,
        },
{
    let all = String::from_str(stdout).concat(stderr);
    let combined = trim(all.as_str());
    if success {
        return Ok(combined);
    }
    let cc = chars_of(combined.as_str());
    if cc.len() == 0 {
        Err(String::from_str(program).concat(" 退出码非 0"))
    } else {
        Err(combined)
    }
}

/// The non-empty outputs, joined by ` | `.
pub open spec fn joined_outputs(outs: Seq<Seq<char>>) -> Seq<char>
    decreases outs.len(),
{
    if outs.len() == 0 {
        seq![]
    } else {
        let prev = joined_outputs(outs.drop_last());
        let o = outs.last();
        if o.len() == 0 {
            prev
        } else if prev.len() == 0 {
            o
        } else {
            prev + " | "@ + o
        }
    }
}

/// Joins the outputs of an update's commands, skipping empty ones.
pub fn join_outputs(outputs: &Vec<String>) -> (res: String)
    ensures
        res@ == joined_outputs(outputs@.map_values(|s: String| s@)),
{
    let ghost outs = outputs@.map_values(|s: String| s@);
    let mut res = String::new();
    let mut i: usize = 0;
    assert(outs.take(0) =~= Seq::<Seq<char>>::empty());
    while i < outputs.len()
        invariant
            i <= outputs.len(),
            outs == outputs@.map_values(|s: String| s@),
            res@ == joined_outputs(outs.take(i as int)),
        decreases outputs.len() - i,
    {
        assert(outs.take(i + 1).drop_last() =~= outs.take(i as int));
        assert(outs.take(i + 1).last() == outputs[i as int]@);
        let o = outputs[i].as_str();
        let oc = chars_of(o);
        if oc.len() > 0 {
            let rc = chars_of(res.as_str());
            if rc.len() == 0 {
                res = String::from_str(o);
            } else {
                res = res.concat(" | ").concat(o);
            }
        }
        i = i + 1;
    }
    assert(outs.take(outputs.len() as int) =~= outs);
    res
}

} // verus!
