//! Command-line resolution: the working folder and the buffers to open.
//!
//! - no arguments: the root is the current directory, one empty buffer;
//! - the first argument is a directory: it becomes the root and the picker
//!   opens; other directory arguments are ignored, files still become
//!   buffers;
//! - the first argument is a file: its parent becomes the root (the current
//!   directory for a bare file name); every file argument becomes a buffer,
//!   directories are ignored.
//!
//! Whether an argument is a directory is asked of the file system by the
//! caller and handed in.

use vstd::prelude::*;

use crate::paths::{parent_of, path_parent};

verus! {

/// Where the editor starts.
pub struct Launch {
    /// The working folder (picker root).
    pub root: String,
    /// Files to open as buffers, in order.
    pub files: Vec<String>,
    /// Start with the file picker open (launched onto a directory).
    pub open_picker: bool,
}

/// The arguments that are not directories, in order.
pub open spec fn file_args(args: Seq<String>, is_dir: Seq<bool>) -> Seq<Seq<char>>
    decreases args.len(),
{
    if args.len() == 0 {
        seq![]
    } else {
        let init = file_args(args.drop_last(), is_dir);
        if is_dir[args.len() - 1] {
            init
        } else {
            init.push(args.last()@)
        }
    }
}

/// The root for a first argument that is a file: its parent, unless that
/// is empty or missing, then the current directory.
pub open spec fn file_root(parent: Option<Seq<char>>, cwd: Seq<char>) -> Seq<char> {
    match parent {
        Some(p) => if p.len() > 0 {
            p
        } else {
            cwd
        },
        None => cwd,
    }
}

/// The views of a run of strings.
pub open spec fn string_views(v: Seq<String>) -> Seq<Seq<char>> {
    v.map_values(|s: String| s@)
}

/// The launch for the given arguments, given which of them are directories
/// and the parent of the first one.
pub fn launch_from(args: &[String], is_dir: &[bool], cwd: String, first_parent: Option<String>) -> (l: Launch)
    requires
        is_dir@.len() == args@.len(),
    ensures
        args@.len() == 0 ==> l.root@ == cwd@ && l.files@.len() == 0 && !l.open_picker,
        args@.len() > 0 ==> {
            &&& string_views(l.files@) == file_args(args@, is_dir@)
            &&& l.root@ == (if is_dir@[0] {
                args@[0]@
            } else {
                file_root(
                    match first_parent {
                        Some(p) => Some(p@),
                        None => None,
                    },
                    cwd@,
                )
            })
            &&& l.open_picker == (is_dir@[0] && file_args(args@, is_dir@).len() == 0)
        },
{
    if args.len() == 0 {
        return Launch { root: cwd, files: Vec::new(), open_picker: false };
    }
    let mut files: Vec<String> = Vec::new();
    let mut i: usize = 0;
    while i < args.len()
        invariant
            i <= args@.len(),
            is_dir@.len() == args@.len(),
            string_views(files@) == file_args(args@.take(i as int), is_dir@),
        decreases args@.len() - i,
    {
        assert(args@.take(i + 1).drop_last() =~= args@.take(i as int));
        if !is_dir[i] {
            files.push(args[i].clone());
        }
        i += 1;
        assert(string_views(files@) =~= file_args(args@.take(i as int), is_dir@));
    }
    assert(args@.take(args@.len() as int) =~= args@);
    let first_is_dir = is_dir[0];
    let root = if first_is_dir {
        args[0].clone()
    } else {
        match first_parent {
            Some(p) => if p.as_str().unicode_len() > 0 {
                p
            } else {
                cwd
            },
            None => cwd,
        }
    };
    let open_picker = first_is_dir && files.len() == 0;
    Launch { root, files, open_picker }
}

/// The launch for the given arguments, given which of them are directories.
pub fn resolve(args: &[String], is_dir: &[bool], cwd: String) -> (l: Launch)
    requires
        is_dir@.len() == args@.len(),
    ensures
        args@.len() == 0 ==> l.root@ == cwd@ && l.files@.len() == 0 && !l.open_picker,
        args@.len() > 0 ==> {
            &&& string_views(l.files@) == file_args(args@, is_dir@)
            &&& l.root@ == (if is_dir@[0] {
                args@[0]@
            } else {
                file_root(path_parent(args@[0]@), cwd@)
            })
            &&& l.open_picker == (is_dir@[0] && file_args(args@, is_dir@).len() == 0)
        },
{
    if args.len() == 0 {
        return launch_from(args, is_dir, cwd, None);
    }
    let parent = parent_of(args[0].as_str());
    launch_from(args, is_dir, cwd, parent)
}

} // verus!
