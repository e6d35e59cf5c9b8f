//! Argument checks for the commands.
use vstd::prelude::*;
use crate::text_util::{str_eq, text, parse_usize, parse_unsigned};

verus! {

/// The characters of each word of a command.
pub open spec fn words_of(parts: Seq<&str>) -> Seq<Seq<char>> {
    parts.map_values(|s: &str| s@)
}

/// Whether `r` is the outcome `expected`, the error compared by its characters.
pub open spec fn outcome_is(r: Result<(), String>, expected: Result<(), Seq<char>>) -> bool {
    match expected {
        Ok(()) => r is Ok,
        Err(m) => r matches Err(e) && e@ == m,
    }
}

pub trait CommandValidator {
    /// Whether a command of `n` words can be checked.
    spec fn checks_len(n: nat) -> bool;

    fn validate(parts: &Vec<&str>) -> (r: Result<(), String>)
        requires
            Self::checks_len(parts@.len()),
    ;
}

pub struct LPushValidator;

pub struct SetValidator;

pub struct LPopValidator;

pub struct XADDValidator;

pub struct XGROUPADDValidator;

pub struct XGROUPREADValidator;

pub open spec fn xadd_check(p: Seq<Seq<char>>) -> Result<(), Seq<char>> {
    if p.len() <= 4 {
        Err("-ERR wrong number of arguments for 'XAdd'\n"@)
    } else if (p.len() - 3) % 2 != 0 {
        Err("-ERR wrong number of arguments for 'XAdd' Values\n"@)
    } else {
        Ok(())
    }
}

pub open spec fn xgroupadd_check(p: Seq<Seq<char>>) -> Result<(), Seq<char>> {
    if p.len() < 5 {
        Err("-ERR wrong number of arguments for 'XGROUP ADD'\n"@)
    } else if (p.len() - 3) % 2 != 0 {
        Err("-ERR wrong number of arguments for 'XAdd' Values\n"@)
    } else if p[1] != "GROUP"@ {
        Err("-ERR Second Argument should be GROUP"@)
    } else {
        Ok(())
    }
}

/// Whether `s` is a number that fits a `usize`.
pub open spec fn is_usize_text(s: Seq<char>) -> bool {
    parse_unsigned(s) matches Some(v) && v <= usize::MAX
}

pub open spec fn xgroupread_check(p: Seq<Seq<char>>) -> Result<(), Seq<char>> {
    if p.len() < 6 {
        Err("-ERR wrong number of arguments for 'XREADGROUP'\n"@)
    } else if p[1] != "GROUP"@ {
        Err("-ERR second argument must be 'GROUP'\n"@)
    } else if p[4] == "COUNT"@ && !is_usize_text(p[5]) {
        Err("-ERR COUNT value must be a valid integer\n"@)
    } else {
        let i = if p[4] == "COUNT"@ { 6int } else { 4int };
        if !(i < p.len() && p[i] == "STREAMS"@) {
            Err("-ERR expected 'STREAMS' keyword\n"@)
        } else {
            let rest = p.skip(i + 1);
            let middle = (rest.len() / 2) as int;
            if !(middle < rest.len() && rest[middle] == ">"@) {
                Err("-ERR must specify equal number of stream names and IDs\n"@)
            } else if rest.len() % 2 == 0 || rest.len() == 0 {
                Err("-ERR must specify equal number of stream names and IDs\n"@)
            } else {
                Ok(())
            }
        }
    }
}

impl CommandValidator for XADDValidator {
    open spec fn checks_len(n: nat) -> bool {
        n >= 3
    }

    fn validate(parts: &Vec<&str>) -> (r: Result<(), String>)
        ensures
            outcome_is(r, xadd_check(words_of(parts@))),
    {
        let arguments_length = parts.len() - 3;
        if parts.len() <= 4 {
            Err(text("-ERR wrong number of arguments for 'XAdd'\n"))
        } else if !(arguments_length % 2 == 0) {
            Err(text("-ERR wrong number of arguments for 'XAdd' Values\n"))
        } else {
            Ok(())
        }
    }
}

impl CommandValidator for XGROUPREADValidator {
    open spec fn checks_len(n: nat) -> bool {
        true
    }

    fn validate(parts: &Vec<&str>) -> (r: Result<(), String>)
        ensures
            outcome_is(r, xgroupread_check(words_of(parts@))),
    {
        let ghost p = words_of(parts@);
        if parts.len() < 6 {
            return Err(text("-ERR wrong number of arguments for 'XREADGROUP'\n"));
        }
        if !str_eq(parts[1], "GROUP") {
            return Err(text("-ERR second argument must be 'GROUP'\n"));
        }
        let mut i: usize = 4;
        if str_eq(parts[i], "COUNT") {
            if parts.len() <= i + 1 {
                return Err(text("-ERR COUNT must be followed by a number\n"));
            }
            if parse_usize(parts[i + 1]).is_none() {
                return Err(text("-ERR COUNT value must be a valid integer\n"));
            }
            i += 2;
        }
        if !(i < parts.len() && str_eq(parts[i], "STREAMS")) {
            return Err(text("-ERR expected 'STREAMS' keyword\n"));
        }
        i += 1;
        let remaining_len = parts.len() - i;
        let middle_index = remaining_len / 2;
        proof {
            let rest = p.skip(i as int);
            assert(rest.len() == remaining_len);
            if middle_index < remaining_len {
                assert(rest[middle_index as int] == parts@[i + middle_index]@);
            }
        }
        if !(middle_index < remaining_len && str_eq(parts[i + middle_index], ">")) {
            return Err(text("-ERR must specify equal number of stream names and IDs\n"));
        }
        if remaining_len % 2 == 0 || remaining_len == 0 {
            return Err(text("-ERR must specify equal number of stream names and IDs\n"));
        }
        Ok(())
    }
}

impl CommandValidator for XGROUPADDValidator {
    open spec fn checks_len(n: nat) -> bool {
        n >= 3
    }

    fn validate(parts: &Vec<&str>) -> (r: Result<(), String>)
        ensures
            outcome_is(r, xgroupadd_check(words_of(parts@))),
    {
        let arguments_length = parts.len() - 3;
        if parts.len() < 5 {
            Err(text("-ERR wrong number of arguments for 'XGROUP ADD'\n"))
        } else if !(arguments_length % 2 == 0) {
            Err(text("-ERR wrong number of arguments for 'XAdd' Values\n"))
        } else if !str_eq(parts[1], "GROUP") {
            Err(text("-ERR Second Argument should be GROUP"))
        } else {
            Ok(())
        }
    }
}

impl CommandValidator for SetValidator {
    open spec fn checks_len(n: nat) -> bool {
        true
    }

    fn validate(parts: &Vec<&str>) -> (r: Result<(), String>)
        ensures
            outcome_is(
                r,
                if parts@.len() < 3 {
                    Err("-ERR wrong number of arguments for 'SET'\n"@)
                } else {
                    Ok(())
                },
            ),
    {
        if parts.len() < 3 {
            Err(text("-ERR wrong number of arguments for 'SET'\n"))
        } else {
            Ok(())
        }
    }
}

impl CommandValidator for LPushValidator {
    open spec fn checks_len(n: nat) -> bool {
        true
    }

    fn validate(parts: &Vec<&str>) -> (r: Result<(), String>)
        ensures
            outcome_is(
                r,
                if parts@.len() != 3 {
                    Err("-ERR wrong number of arguments for 'lpush'\n"@)
                } else {
                    Ok(())
                },
            ),
    {
        if parts.len() != 3 {
            Err(text("-ERR wrong number of arguments for 'lpush'\n"))
        } else {
            Ok(())
        }
    }
}

impl CommandValidator for LPopValidator {
    open spec fn checks_len(n: nat) -> bool {
        true
    }

    fn validate(parts: &Vec<&str>) -> (r: Result<(), String>)
        ensures
            outcome_is(
                r,
                if parts@.len() != 2 {
                    Err("-ERR wrong number of arguments for 'lpop'\n"@)
                } else {
                    Ok(())
                },
            ),
    {
        if parts.len() != 2 {
            Err(text("-ERR wrong number of arguments for 'lpop'\n"))
        } else {
            Ok(())
        }
    }
}

} // verus!
