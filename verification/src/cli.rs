//! The option surface the surrounding program hands to the core: the
//! transform options, the `property=value` filter specification and
//! its parser, and the facade through which a run is started.

use vstd::prelude::*;
use crate::text::{find_char, lemma_find_first};

verus! {

/// A filter specification: a property name and the value it must
/// equal.
#[derive(Clone, Debug, PartialEq, Eq)]
pub struct FilterOn {
    pub prop: String,
    pub value: String,
}

/// The options of one transform run. The two files are named by the
/// caller; the core never opens them itself.
#[derive(Clone, Debug, PartialEq, Eq)]
pub struct TransformOpts {
    pub input_file: String,
    pub output_file: String,
    pub filter_on: FilterOn,
}

/// Splits `s` at the first occurrence of `sep`, which is not kept.
pub fn split_once<'a>(s: &'a str, sep: char) -> (r: Option<(&'a str, &'a str)>)
    ensures
        match r {
            Some((a, b)) => {
                &&& find_char(s@, sep) == Some(a@.len() as int)
                &&& a@ == s@.take(a@.len() as int)
                &&& b@ == s@.skip(a@.len() as int + 1)
            },
            None => find_char(s@, sep) is None,
        },
{
    let n = s.unicode_len();
    let mut i: usize = 0;
    proof {
        lemma_find_first(s@, sep, sep);
    }
    while i < n
        invariant
            n == s@.len(),
            0 <= i <= n,
            forall|j: int| 0 <= j < i ==> s@[j] != sep,
            match find_char(s@, sep) {
                Some(k) => 0 <= k < s@.len() && s@[k] == sep && (forall|j: int|
                    0 <= j < k ==> s@[j] != sep),
                None => forall|j: int| 0 <= j < s@.len() ==> s@[j] != sep,
            },
        decreases n - i,
    {
        if s.get_char(i) == sep {
            let a = s.substring_char(0, i);
            let b = s.substring_char(i + 1, n);
            proof {
                assert(find_char(s@, sep) == Some(i as int));
            }
            return Some((a, b));
        }
        i += 1;
    }
    proof {
        assert(find_char(s@, sep) is None);
    }
    None
}

impl FilterOn {
    /// Parses `property=value`, splitting on the first `=`; a string
    /// with no `=` is a usage error.
    pub fn from_str(s: &str) -> (r: Result<FilterOn, String>)
        ensures
            match r {
                Ok(f) => {
                    &&& find_char(s@, '=') == Some(f.prop@.len() as int)
                    &&& f.prop@ == s@.take(f.prop@.len() as int)
                    &&& f.value@ == s@.skip(f.prop@.len() as int + 1)
                },
                Err(msg) => {
                    &&& find_char(s@, '=') is None
                    &&& msg@ == "'"@ + s@ + "' is not in property=value format"@
                },
            },
    {
        match split_once(s, '=') {
            Some((prop, value)) => Ok(
                FilterOn { prop: prop.to_owned(), value: value.to_owned() },
            ),
            None => {
                let msg = String::from_str("'").concat(s).concat(
                    "' is not in property=value format",
                );
                Err(msg)
            },
        }
    }
}

/// What the surrounding program implements to carry out a transform
/// run: it owns the file handling the core stays away from.
pub trait FileTransformFacade {
    fn transform(&self, input_file: String, output_file: String, filter_on: FilterOn);
}

/// Starts a run by handing the parsed options to the facade.
pub fn run<F: FileTransformFacade>(opts: TransformOpts, transform: &F) {
    transform.transform(opts.input_file, opts.output_file, opts.filter_on);
}

} // verus!
