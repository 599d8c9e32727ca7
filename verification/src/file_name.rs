//! The parts of a file name that `std::path::Path` reports: stem and extension.
//! A file name here is one path component (the value of `Path::file_name`).

use vstd::prelude::*;
use vstd::string::*;
use crate::text::{last_index_of, lemma_last_index_of_range, rfind_char};

verus! {

/// The components `.` and `..`, which name no file.
pub open spec fn is_dot_component(name: Seq<char>) -> bool {
    name == seq!['.'] || name == seq!['.', '.']
}

/// What `Path::file_stem` gives for a path whose last component is `name`.
pub open spec fn path_file_stem(name: Seq<char>) -> Option<Seq<char>> {
    if name.len() == 0 || is_dot_component(name) {
        None
    } else {
        match last_index_of(name, '.') {
            Some(p) if p > 0 => Some(name.take(p)),
            _ => Some(name),
        }
    }
}

/// What `Path::extension` gives for a path whose last component is `name`.
pub open spec fn path_extension(name: Seq<char>) -> Option<Seq<char>> {
    if name.len() == 0 || is_dot_component(name) {
        None
    } else {
        match last_index_of(name, '.') {
            Some(p) if p > 0 => Some(name.skip(p + 1)),
            _ => None,
        }
    }
}

fn dot_component(name: &str) -> (r: bool)
    ensures
        r == is_dot_component(name@),
{
    let n = name.unicode_len();
    if n == 1 {
        let r = name.get_char(0) == '.';
        assert(r ==> name@ =~= seq!['.']);
        r
    } else if n == 2 {
        let r = name.get_char(0) == '.' && name.get_char(1) == '.';
        assert(r ==> name@ =~= seq!['.', '.']);
        r
    } else {
        false
    }
}

/// The extension of the file name `name`, as `Path::extension` reports it.
pub fn extension(name: &str) -> (r: Option<&str>)
    ensures
        r matches Some(e) ==> path_extension(name@) == Some(e@),
        r is None ==> path_extension(name@) is None,
{
    let n = name.unicode_len();
    if n == 0 || dot_component(name) {
        return None;
    }
    match rfind_char(name, '.') {
        Some(p) => {
            if p > 0 {
                proof {
                    lemma_last_index_of_range(name@, '.');
                }
                let e = name.substring_char(p + 1, n);
                assert(e@ =~= name@.skip(p + 1));
                Some(e)
            } else {
                None
            }
        },
        None => None,
    }
}

/// The stem of the file name `name`, as `Path::file_stem` reports it.
pub fn file_stem(name: &str) -> (r: Option<&str>)
    ensures
        r matches Some(e) ==> path_file_stem(name@) == Some(e@),
        r is None ==> path_file_stem(name@) is None,
{
    let n = name.unicode_len();
    if n == 0 || dot_component(name) {
        return None;
    }
    match rfind_char(name, '.') {
        Some(p) => {
            if p > 0 {
                proof {
                    lemma_last_index_of_range(name@, '.');
                }
                let e = name.substring_char(0, p);
                assert(e@ =~= name@.take(p as int));
                Some(e)
            } else {
                let e = name.substring_char(0, n);
                assert(e@ =~= name@);
                Some(e)
            }
        },
        None => {
            let e = name.substring_char(0, n);
            assert(e@ =~= name@);
            Some(e)
        },
    }
}

} // verus!
