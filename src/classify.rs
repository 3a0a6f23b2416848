use vstd::prelude::*;
use crate::text::chars_of;

verus! {

/// What a walk does with a directory entry.
#[derive(PartialEq, Eq, Structural, Clone, Copy, Debug)]
pub enum EntryAction {
    /// A directory to walk into.
    Descend,
    /// A file to hand to the consumers.
    Record,
    /// Neither: a symbolic link, a hidden directory or an excluded one.
    Skip,
}

/// Directory names never walked into: dependency caches, build output and
/// version-control metadata.
pub open spec fn is_excluded_dir_name(name: Seq<char>) -> bool {
    name == seq!['n', 'o', 'd', 'e', '_', 'm', 'o', 'd', 'u', 'l', 'e', 's'] || name == seq![
        't',
        'a',
        'r',
        'g',
        'e',
        't',
    ] || name == seq!['.', 'g', 'i', 't']
}

pub open spec fn is_hidden_name(name: Seq<char>) -> bool {
    name.len() > 0 && name[0] == '.'
}

/// Symbolic links are never followed; directories are entered unless hidden
/// or excluded; everything else is a file to record.
pub open spec fn entry_action(name: Seq<char>, is_symlink: bool, is_dir: bool) -> EntryAction {
    if is_symlink {
        EntryAction::Skip
    } else if is_dir {
        if is_hidden_name(name) || is_excluded_dir_name(name) {
            EntryAction::Skip
        } else {
            EntryAction::Descend
        }
    } else {
        EntryAction::Record
    }
}

fn is_excluded(cs: &Vec<char>) -> (r: bool)
    ensures
        r == is_excluded_dir_name(cs@),
{
    let n = cs.len();
    let r = if n == 12 {
        cs[0] == 'n' && cs[1] == 'o' && cs[2] == 'd' && cs[3] == 'e' && cs[4] == '_' && cs[5]
            == 'm' && cs[6] == 'o' && cs[7] == 'd' && cs[8] == 'u' && cs[9] == 'l' && cs[10] == 'e'
            && cs[11] == 's'
    } else if n == 6 {
        cs[0] == 't' && cs[1] == 'a' && cs[2] == 'r' && cs[3] == 'g' && cs[4] == 'e' && cs[5]
            == 't'
    } else if n == 4 {
        cs[0] == '.' && cs[1] == 'g' && cs[2] == 'i' && cs[3] == 't'
    } else {
        false
    };
    assert(r == is_excluded_dir_name(cs@)) by {
        if r {
            if n == 12 {
                assert(cs@ =~= seq!['n', 'o', 'd', 'e', '_', 'm', 'o', 'd', 'u', 'l', 'e', 's']);
            } else if n == 6 {
                assert(cs@ =~= seq!['t', 'a', 'r', 'g', 'e', 't']);
            } else {
                assert(cs@ =~= seq!['.', 'g', 'i', 't']);
            }
        }
    }
    r
}

pub fn classify_entry(name: &str, is_symlink: bool, is_dir: bool) -> (r: EntryAction)
    ensures
        r == entry_action(name@, is_symlink, is_dir),
{
    if is_symlink {
        return EntryAction::Skip;
    }
    if !is_dir {
        return EntryAction::Record;
    }
    let cs = chars_of(name);
    if (cs.len() > 0 && cs[0] == '.') || is_excluded(&cs) {
        EntryAction::Skip
    } else {
        EntryAction::Descend
    }
}

} // verus!
