//! Reading `--flag value` pairs from a command line.
use vstd::prelude::*;

use crate::broker::error::{BrokerError, BrokerResult};
use crate::text::{joined, text_is};

verus! {

/// The first position from `i` on that holds `flag`.
pub open spec fn flag_from(args: Seq<String>, flag: Seq<char>, i: int) -> Option<int>
    decreases args.len() - i,
{
    if i < 0 || i >= args.len() {
        None
    } else if args[i]@ == flag {
        Some(i)
    } else {
        flag_from(args, flag, i + 1)
    }
}

/// The argument that follows the first `flag`, if there is one.
pub open spec fn flag_value(args: Seq<String>, flag: Seq<char>) -> Option<Seq<char>> {
    match flag_from(args, flag, 0) {
        Some(i) => if i + 1 < args.len() {
            Some(args[i + 1]@)
        } else {
            None
        },
        None => None,
    }
}

proof fn lemma_flag_from_bounds(args: Seq<String>, flag: Seq<char>, i: int)
    ensures
        flag_from(args, flag, i) matches Some(j) ==> i <= j < args.len() && 0 <= j,
    decreases args.len() - i,
{
    if 0 <= i < args.len() && args[i]@ != flag {
        lemma_flag_from_bounds(args, flag, i + 1);
    }
}

/// The value given for `flag`: the argument after its first occurrence.
pub fn get_arg(args: &[String], flag: &str) -> (r: Option<String>)
    ensures
        match flag_value(args@, flag@) {
            Some(v) => r matches Some(s) && s@ == v,
            None => r is None,
        },
{
    let mut i: usize = 0;
    while i < args.len()
        invariant
            i <= args@.len(),
            flag_from(args@, flag@, 0) == flag_from(args@, flag@, i as int),
        decreases args@.len() - i,
    {
        if text_is(&args[i], flag) {
            proof {
                lemma_flag_from_bounds(args@, flag@, 0);
            }
            if i + 1 < args.len() {
                return Some(args[i + 1].clone());
            } else {
                return None;
            }
        }
        i = i + 1;
    }
    None
}

/// The value given for `flag`, which must be there.
pub fn require_arg(args: &[String], flag: &str) -> (r: BrokerResult<String>)
    ensures
        match flag_value(args@, flag@) {
            Some(v) => r matches Ok(s) && s@ == v,
            None => r matches Err(BrokerError::InvalidArgument(m)) && m@ == "missing required flag: "@
                + flag@,
        },
{
    match get_arg(args, flag) {
        Some(v) => Ok(v),
        None => Err(BrokerError::InvalidArgument(joined("missing required flag: ", flag))),
    }
}

} // verus!
