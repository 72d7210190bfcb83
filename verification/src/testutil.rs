//! Helpers for tests: the paths of a disposable repository and the text of
//! a tool's answer.

use vstd::prelude::*;
use crate::text::{chars_of, decimal, join_path, joined, push_decimal, push_str, string_of};
use crate::tools::ToolResult;

verus! {

/// `PathBuf::join`: an absolute path replaces the base.
pub open spec fn path_join(base: Seq<char>, rel: Seq<char>) -> Seq<char> {
    if rel.len() > 0 && rel[0] == '/' {
        rel
    } else {
        join_path(base, rel)
    }
}

/// A temporary repository rooted at `root` (creating and removing its
/// files is the caller's part).
pub struct TmpRepo {
    pub root: String,
}

/// The directory name of the `n`-th temporary repository of process `pid`
/// for `tag`.
pub open spec fn tmp_name(pid: nat, n: nat, tag: Seq<char>) -> Seq<char> {
    "rtk-test-"@ + decimal(pid) + "-"@ + decimal(n) + "-"@ + tag
}

impl TmpRepo {
    /// The `n`-th repository of process `pid` for `tag`, under the
    /// temporary directory `tmp`.
    pub fn under(tmp: &str, pid: u32, n: usize, tag: &str) -> (r: TmpRepo)
        ensures
            r.root@ == path_join(tmp@, tmp_name(pid as nat, n as nat, tag@)),
    {
        let mut name: Vec<char> = Vec::new();
        push_str(&mut name, "rtk-test-");
        push_decimal(&mut name, pid as u64);
        push_str(&mut name, "-");
        push_decimal(&mut name, n as u64);
        push_str(&mut name, "-");
        push_str(&mut name, tag);
        assert(name@ =~= tmp_name(pid as nat, n as nat, tag@));
        let root = joined(&chars_of(tmp), &name);
        proof {
            reveal_strlit("rtk-test-");
        }
        assert(name@[0] == 'r');
        TmpRepo { root: string_of(&root) }
    }

    /// The path of `rel` inside the repository, as a `String` for the JSON
    /// arguments.
    pub fn path(&self, rel: &str) -> (r: String)
        ensures
            r@ == path_join(self.root@, rel@),
    {
        let rv = chars_of(rel);
        if rv.len() > 0 && rv[0] == '/' {
            return string_of(&rv);
        }
        string_of(&joined(&chars_of(self.root.as_str()), &rv))
    }

    /// The root of the repository.
    pub fn root_str(&self) -> (r: String)
        ensures
            r@ == self.root@,
    {
        string_of(&chars_of(self.root.as_str()))
    }
}

/// The text of a tool's answer.
pub fn text_of(r: &ToolResult) -> (t: String)
    ensures
        t@ == r.text@,
{
    string_of(&chars_of(r.text.as_str()))
}

} // verus!
