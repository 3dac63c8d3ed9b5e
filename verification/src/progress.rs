//! The progress of a removal as the foreground sees it: text lines in the
//! order in which they were sent, and a mark that ends them.

use vstd::prelude::*;
use crate::text::{lemma_texts_push, lowercase, same_text, texts, to_chars, trim, trimmed,
    unicode_lowercase};

verus! {

/// One message of the worker that carries out a removal.
#[derive(Debug, PartialEq, Eq)]
pub enum LogMsg {
    /// A line for the log.
    Line(String),
    /// The removal is over.
    Done,
}

/// The lines among the messages, in the order of the messages.
pub open spec fn lines_of(batch: Seq<LogMsg>) -> Seq<Seq<char>>
    decreases batch.len(),
{
    if batch.len() == 0 {
        Seq::empty()
    } else {
        let before = lines_of(batch.drop_last());
        match batch.last() {
            LogMsg::Line(line) => before.push(line@),
            LogMsg::Done => before,
        }
    }
}

/// One of the messages is the mark that ends a removal.
pub open spec fn holds_done(batch: Seq<LogMsg>) -> bool {
    exists|i: int| 0 <= i < batch.len() && #[trigger] batch[i] is Done
}

/// What has come in can be taken in one look or in two: the lines are the
/// same and in the same order, and the end is seen in one look where it is
/// seen in either of the two.
pub proof fn lemma_polling_in_parts(first: Seq<LogMsg>, second: Seq<LogMsg>)
    ensures
        lines_of(first + second) == lines_of(first) + lines_of(second),
        holds_done(first + second) == (holds_done(first) || holds_done(second)),
    decreases second.len(),
{
    let both = first + second;
    if second.len() == 0 {
        assert(both =~= first);
        assert(lines_of(first) + lines_of(second) =~= lines_of(first));
    } else {
        let rest = second.drop_last();
        lemma_polling_in_parts(first, rest);
        assert(both.drop_last() =~= first + rest);
        assert(both.last() == second.last());
        match second.last() {
            LogMsg::Line(line) => {
                assert(lines_of(first) + lines_of(rest).push(line@) =~= (lines_of(first)
                    + lines_of(rest)).push(line@));
            },
            LogMsg::Done => {},
        }
    }
    if holds_done(first) {
        let k = choose|k: int| 0 <= k < first.len() && #[trigger] first[k] is Done;
        assert(both[k] is Done);
    }
    if holds_done(second) {
        let k = choose|k: int| 0 <= k < second.len() && #[trigger] second[k] is Done;
        assert(both[first.len() + k] is Done);
    }
    if holds_done(both) {
        let k = choose|k: int| 0 <= k < both.len() && #[trigger] both[k] is Done;
        if k < first.len() {
            assert(first[k] is Done);
        } else {
            assert(second[k - first.len()] is Done);
        }
    }
}

/// Takes the messages that have come in since the last look: their lines
/// are added to the log in the order in which they came, and the result
/// says whether the removal is over.
pub fn poll_log(log: &mut Vec<String>, batch: &Vec<LogMsg>) -> (done: bool)
    ensures
        texts(final(log)@) == texts(old(log)@) + lines_of(batch@),
        done == holds_done(batch@),
{
    let mut done = false;
    let mut i: usize = 0;
    assert(texts(log@) + lines_of(batch@.take(0)) =~= texts(log@));
    while i < batch.len()
        invariant
            i <= batch.len(),
            texts(log@) == texts(old(log)@) + lines_of(batch@.take(i as int)),
            done == holds_done(batch@.take(i as int)),
        decreases batch.len() - i,
    {
        let ghost seen = batch@.take(i as int);
        let ghost next = batch@.take(i + 1);
        assert(next.drop_last() =~= seen);
        assert(next.last() == batch@[i as int]);
        assert(holds_done(next) == (holds_done(seen) || batch@[i as int] is Done)) by {
            if holds_done(seen) {
                let k = choose|k: int| 0 <= k < seen.len() && #[trigger] seen[k] is Done;
                assert(next[k] is Done);
            }
            if batch@[i as int] is Done {
                assert(next[i as int] is Done);
            }
            if holds_done(next) {
                let k = choose|k: int| 0 <= k < next.len() && #[trigger] next[k] is Done;
                if k < i {
                    assert(seen[k] is Done);
                }
            }
        }
        match &batch[i] {
            LogMsg::Line(line) => {
                let copy = line.clone();
                proof {
                    lemma_texts_push(log@, copy);
                    assert(texts(old(log)@) + lines_of(next) =~= (texts(old(log)@) + lines_of(
                        seen,
                    )).push(copy@));
                }
                log.push(copy);
            },
            LogMsg::Done => {
                done = true;
            },
        }
        i += 1;
    }
    assert(batch@.take(i as int) =~= batch@);
    done
}

/// An answer says yes where, without the white space around it and folded
/// to lower case, it is one of `s`, `sim`, `y` and `yes`.
pub open spec fn affirmative(answer: Seq<char>) -> bool {
    let word = unicode_lowercase(trimmed(answer));
    word == "s"@ || word == "sim"@ || word == "y"@ || word == "yes"@
}

/// Whether an answer typed at a prompt says yes.
pub fn is_affirmative(answer: &str) -> (r: bool)
    ensures
        r == affirmative(answer@),
{
    let cut = trim(answer);
    let folded = lowercase(cut.as_str());
    let word = to_chars(folded.as_str());
    same_text(&word, &to_chars("s")) || same_text(&word, &to_chars("sim")) || same_text(
        &word,
        &to_chars("y"),
    ) || same_text(&word, &to_chars("yes"))
}

} // verus!
