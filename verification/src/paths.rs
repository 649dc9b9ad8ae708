//! Which text stands for a path when it is shown. What the file system
//! library says of a path comes in as plain values; the choice among them
//! is made here.

use vstd::prelude::*;
use vstd::string::StrSliceExecFns;

verus! {

/// The character that a lossy conversion puts in place of what is no text.
pub const REPLACEMENT: char = '\u{fffd}';

/// A text without its replacement characters.
pub open spec fn without_replacement(text: Seq<char>) -> Seq<char> {
    text.filter(|c: char| c != REPLACEMENT)
}

/// Takes the replacement characters out of a text.
pub fn strip_replacement(text: &str) -> (stripped: String)
    ensures
        stripped@ == without_replacement(text@),
{
    let count = text.unicode_len();
    let mut stripped = String::new();
    let mut i: usize = 0;
    assert(text@.take(0) =~= Seq::<char>::empty());
    while i < count
        invariant
            count == text@.len(),
            i <= count,
            stripped@ == without_replacement(text@.take(i as int)),
        decreases count - i,
    {
        let c = text.get_char(i);
        proof {
            let longer = text@.take(i + 1);
            assert(longer.drop_last() =~= text@.take(i as int));
            assert(longer.last() == c);
            reveal(Seq::filter);
        }
        if c != REPLACEMENT {
            stripped.push(c);
        }
        i += 1;
    }
    assert(text@.take(count as int) =~= text@);
    stripped
}

/// The text of a path, where `exact` is the path as text if it is text and
/// `lossy` is its lossy conversion.
pub open spec fn path_text(exact: Option<Seq<char>>, lossy: Seq<char>) -> Seq<char> {
    match exact {
        Some(text) => text,
        None => without_replacement(lossy),
    }
}

/// Convert a path to string with invalid Unicode handling: the path itself
/// where it is text, else its lossy conversion without the replacement
/// characters.
pub fn path_to_string(exact: Option<String>, lossy: String) -> (text: String)
    ensures
        text@ == path_text(exact.deep_view(), lossy@),
{
    match exact {
        Some(text) => text,
        None => strip_replacement(lossy.as_str()),
    }
}

/// The name that a path is shown under, relative to a root: the name of
/// the root itself where the path is the root, the path below the root
/// where it lies there, else its file name, else the whole path.
pub open spec fn shown_name(
    is_root: bool,
    relative: Option<Seq<char>>,
    file_name: Option<Seq<char>>,
    full: Seq<char>,
) -> Seq<char> {
    if is_root {
        match file_name {
            Some(name) => without_replacement(name),
            None => Seq::empty(),
        }
    } else {
        match relative {
            Some(below) => below,
            None => match file_name {
                Some(name) => without_replacement(name),
                None => full,
            },
        }
    }
}

/// Gets the relative path or filename from a full path based on a root
/// directory. `is_root` says whether the path is the root, `relative` is
/// the path with the root stripped where it lies below the root,
/// `file_name` is the lossy text of its last component where it has one,
/// and `full` is the whole path as displayed.
pub fn get_relative_path_or_filename(
    is_root: bool,
    relative: Option<String>,
    file_name: Option<String>,
    full: String,
) -> (name: String)
    ensures
        name@ == shown_name(is_root, relative.deep_view(), file_name.deep_view(), full@),
{
    if is_root {
        return match file_name {
            Some(name) => strip_replacement(name.as_str()),
            None => String::new(),
        };
    }
    match relative {
        Some(below) => below,
        None => match file_name {
            Some(name) => strip_replacement(name.as_str()),
            None => full,
        },
    }
}

} // verus!
