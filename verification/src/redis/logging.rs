//! The command log: each command that changes the store, one line each, so
//! that running the lines again rebuilds the store.
use vstd::prelude::*;
use crate::text_util::{
    trim, trim_string, is_ws, split_whitespace, words, is_word, join, lemma_words_of_join, lemma_join_ends, lemma_trim_bare,
};
use crate::redis::validator::words_of;
use crate::redis::vec_utils::{join_from, joined_from};

verus! {

/// The command log. Writing and reading the log file is left to the caller;
/// this type says what goes into it and how a line is read back.
pub struct Logger;

/// The line a command is logged as: its words joined by single spaces,
/// without leading or trailing whitespace.
pub open spec fn log_line(parts: Seq<&str>) -> Seq<char> {
    trim(joined_from(parts, 0))
}

impl Logger {
    /// The line the log keeps for `command`.
    pub fn aof_line(command: &Vec<&str>) -> (r: String)
        ensures
            r@ == log_line(command@),
    {
        let joined = join_from(command, 0);
        trim_string(joined.as_str())
    }

    /// The words of a logged line, as they are run again on replay.
    pub fn line_words(line: &str) -> (r: Vec<String>)
        ensures
            r@.map_values(|w: String| w@) == words(trim(line@)),
    {
        let trimmed = trim_string(line);
        split_whitespace(trimmed.as_str())
    }
}

/// A command made of words, as commands are read, comes back unchanged
/// when its log line is read back: replaying the log runs the same commands.
pub proof fn logged_line_replays(parts: Seq<&str>)
    requires
        forall|i: int| 0 <= i < parts.len() ==> is_word(#[trigger] parts[i]@),
    ensures
        words(trim(log_line(parts))) == words_of(parts),
{
    let ws = words_of(parts);
    assert forall|i: int| 0 <= i < ws.len() implies is_word(#[trigger] ws[i]) by {
        assert(ws[i] == parts[i]@);
    }
    lemma_words_of_join(ws);
    if parts.len() == 0 {
        assert(log_line(parts) == trim(Seq::<char>::empty()));
        assert(trim(Seq::<char>::empty()) =~= Seq::<char>::empty());
        assert(ws =~= Seq::<Seq<char>>::empty());
    } else {
        assert(ws.skip(0) =~= ws);
        let line = join(ws, seq![' ']);
        assert(joined_from(parts, 0) == line);
        lemma_join_ends(ws, seq![' ']);
        assert(is_word(ws[0]));
        assert(is_word(ws.last()));
        assert(!is_ws(ws[0][0]));
        assert(!is_ws(ws.last()[ws.last().len() - 1]));
        lemma_trim_bare(line);
    }
}

} // verus!
