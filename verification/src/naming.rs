//! Device names and the class keys derived from them.
use vstd::prelude::*;
use vstd::string::StrSliceExecFns;

verus! {

/// `i` is the position of the first `=` of `name`.
pub open spec fn separator_at(name: Seq<char>, i: int) -> bool {
    &&& 0 <= i < name.len()
    &&& name[i] == '='
    &&& forall|j: int| 0 <= j < i ==> name[j] != '='
}

/// `name` holds a `=`.
pub open spec fn has_separator(name: Seq<char>) -> bool {
    exists|i: int| separator_at(name, i)
}

/// The position of the first `=` of a name that has one.
pub open spec fn separator_index(name: Seq<char>) -> int {
    choose|i: int| separator_at(name, i)
}

/// The class key of a device name: what stands before its first `=`, or the
/// whole name where it has no `=`.
pub open spec fn class_key_of(name: Seq<char>) -> Seq<char> {
    if has_separator(name) {
        name.take(separator_index(name))
    } else {
        name
    }
}

/// A device name is well formed when a non-empty class key and a non-empty
/// instance stand on the two sides of its first `=`.
pub open spec fn well_formed_name(name: Seq<char>) -> bool {
    has_separator(name) && 0 < separator_index(name) < name.len() - 1
}

/// The first `=` of a name is unique.
pub proof fn lemma_separator_unique(name: Seq<char>, i: int)
    requires
        separator_at(name, i),
    ensures
        has_separator(name),
        separator_index(name) == i,
{
    let k = separator_index(name);
    assert(separator_at(name, k));
    if k < i {
        assert(name[k] != '=');
    }
    if i < k {
        assert(name[i] != '=');
    }
}

/// Finds the first `=` of `name`.
pub fn find_separator(name: &str) -> (r: Option<usize>)
    ensures
        match r {
            Some(i) => separator_at(name@, i as int),
            None => !has_separator(name@),
        },
{
    let n: usize = name.unicode_len();
    let mut i: usize = 0;
    while i < n
        invariant
            n == name@.len(),
            i <= n,
            forall|j: int| 0 <= j < i ==> name@[j] != '=',
        decreases n - i,
    {
        if name.get_char(i) == '=' {
            return Some(i);
        }
        i += 1;
    }
    None
}

/// The class key of `name`, under which its errors are grouped.
pub fn class_key(name: &str) -> (key: String)
    ensures
        key@ == class_key_of(name@),
{
    match find_separator(name) {
        Some(i) => {
            proof {
                lemma_separator_unique(name@, i as int);
            }
            name.substring_char(0, i).to_owned()
        },
        None => name.to_owned(),
    }
}

/// Whether `name` is a well-formed device name.
pub fn is_well_formed(name: &str) -> (ok: bool)
    ensures
        ok == well_formed_name(name@),
{
    match find_separator(name) {
        Some(i) => {
            proof {
                lemma_separator_unique(name@, i as int);
            }
            let n: usize = name.unicode_len();
            0 < i && i < n - 1
        },
        None => false,
    }
}

} // verus!
