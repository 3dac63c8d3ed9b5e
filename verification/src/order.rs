//! The order of texts: character by character, by code point, a proper
//! prefix before the longer text.

use vstd::prelude::*;
use crate::text::{same_text, texts, to_chars};

verus! {

/// `a` comes before `b`, looking only at the characters from `from` on.
pub open spec fn precedes_from(a: Seq<char>, b: Seq<char>, from: nat) -> bool
    decreases a.len() - from,
{
    if from >= b.len() {
        false
    } else if from >= a.len() {
        true
    } else if a[from as int] != b[from as int] {
        a[from as int] < b[from as int]
    } else {
        precedes_from(a, b, from + 1)
    }
}

/// `a` comes strictly before `b` in the order of texts.
pub open spec fn precedes(a: Seq<char>, b: Seq<char>) -> bool {
    precedes_from(a, b, 0)
}

/// Each text comes strictly before the next one: ascending, nothing twice.
pub open spec fn strictly_increasing(s: Seq<Seq<char>>) -> bool {
    forall|i: int, j: int| 0 <= i < j < s.len() ==> precedes(#[trigger] s[i], #[trigger] s[j])
}

/// Whether `a` comes strictly before `b`.
pub fn text_precedes(a: &Vec<char>, b: &Vec<char>) -> (r: bool)
    ensures
        r == precedes(a@, b@),
{
    let mut i: usize = 0;
    loop
        invariant
            i <= a.len(),
            i <= b.len(),
            precedes(a@, b@) == precedes_from(a@, b@, i as nat),
        decreases a.len() - i,
    {
        if i >= b.len() {
            return false;
        }
        if i >= a.len() {
            return true;
        }
        if a[i] != b[i] {
            return a[i] < b[i];
        }
        i += 1;
    }
}

/// No text comes before itself.
pub proof fn lemma_precedes_irreflexive(a: Seq<char>, from: nat)
    ensures
        !precedes_from(a, a, from),
    decreases a.len() - from,
{
    if from < a.len() {
        lemma_precedes_irreflexive(a, from + 1);
    }
}

/// The order is transitive.
pub proof fn lemma_precedes_transitive(a: Seq<char>, b: Seq<char>, c: Seq<char>, from: nat)
    requires
        precedes_from(a, b, from),
        precedes_from(b, c, from),
    ensures
        precedes_from(a, c, from),
    decreases a.len() - from,
{
    if from < a.len() && from < b.len() && from < c.len() {
        if a[from as int] == b[from as int] && b[from as int] == c[from as int] {
            lemma_precedes_transitive(a, b, c, from + 1);
        }
    }
}

/// Two texts that agree before `from`, neither of which comes before the
/// other from there on, are the same text.
pub proof fn lemma_precedes_total(a: Seq<char>, b: Seq<char>, from: nat)
    requires
        from <= a.len(),
        from <= b.len(),
        a.take(from as int) == b.take(from as int),
        !precedes_from(a, b, from),
        !precedes_from(b, a, from),
    ensures
        a == b,
    decreases a.len() - from,
{
    if from < a.len() && from < b.len() {
        assert(a[from as int] == b[from as int]);
        assert(a.take(from as int + 1) =~= a.take(from as int).push(a[from as int]));
        assert(b.take(from as int + 1) =~= b.take(from as int).push(b[from as int]));
        lemma_precedes_total(a, b, from + 1);
    } else {
        assert(a.len() == from && b.len() == from);
        assert(a =~= a.take(from as int));
        assert(b =~= b.take(from as int));
    }
}

/// Of two different texts one comes before the other.
pub proof fn lemma_precedes_connected(a: Seq<char>, b: Seq<char>)
    ensures
        a == b || precedes(a, b) || precedes(b, a),
{
    if !precedes(a, b) && !precedes(b, a) {
        assert(a.take(0) =~= b.take(0));
        lemma_precedes_total(a, b, 0);
    }
}

/// A strictly ascending sequence is fixed by the set of its members: two
/// such sequences with the same members are the same sequence.
pub proof fn lemma_strictly_increasing_unique(a: Seq<Seq<char>>, b: Seq<Seq<char>>)
    requires
        strictly_increasing(a),
        strictly_increasing(b),
        a.to_set() == b.to_set(),
    ensures
        a == b,
    decreases a.len(),
{
    if a.len() == 0 {
        if b.len() > 0 {
            assert(b.contains(b[0]));
            assert(b.to_set().contains(b[0]));
            assert(a.contains(b[0]));
        }
        assert(a =~= b);
    } else {
        let la = a.last();
        assert(a.contains(la));
        assert(a.to_set().contains(la));
        assert(b.contains(la));
        let lb = b.last();
        assert(b.contains(lb));
        assert(b.to_set().contains(lb));
        assert(a.contains(lb));
        let ka = choose|k: int| 0 <= k < b.len() && b[k] == la;
        let kb = choose|k: int| 0 <= k < a.len() && a[k] == lb;
        if la != lb {
            assert(ka < b.len() - 1);
            assert(kb < a.len() - 1);
            assert(precedes(b[ka], b[b.len() - 1]));
            assert(precedes(a[kb], a[a.len() - 1]));
            lemma_precedes_transitive(la, lb, la, 0);
            lemma_precedes_irreflexive(la, 0);
        }
        let a0 = a.drop_last();
        let b0 = b.drop_last();
        assert forall|x: Seq<char>| a0.contains(x) <==> b0.contains(x) by {
            if a0.contains(x) {
                let i = choose|i: int| 0 <= i < a0.len() && a0[i] == x;
                assert(a[i] == x);
                assert(a.contains(x));
                assert(a.to_set().contains(x));
                assert(b.contains(x));
                let k = choose|k: int| 0 <= k < b.len() && b[k] == x;
                if k == b.len() - 1 {
                    assert(precedes(a[i], a[a.len() - 1]));
                    lemma_precedes_irreflexive(x, 0);
                }
                assert(b0[k] == x);
            }
            if b0.contains(x) {
                let i = choose|i: int| 0 <= i < b0.len() && b0[i] == x;
                assert(b[i] == x);
                assert(b.contains(x));
                assert(b.to_set().contains(x));
                assert(a.contains(x));
                let k = choose|k: int| 0 <= k < a.len() && a[k] == x;
                if k == a.len() - 1 {
                    assert(precedes(b[i], b[b.len() - 1]));
                    lemma_precedes_irreflexive(x, 0);
                }
                assert(a0[k] == x);
            }
        }
        assert(a0.to_set() =~= b0.to_set());
        assert(strictly_increasing(a0)) by {
            assert forall|i: int, j: int| 0 <= i < j < a0.len() implies precedes(
                #[trigger] a0[i],
                #[trigger] a0[j],
            ) by {
                assert(precedes(a[i], a[j]));
            }
        }
        assert(strictly_increasing(b0)) by {
            assert forall|i: int, j: int| 0 <= i < j < b0.len() implies precedes(
                #[trigger] b0[i],
                #[trigger] b0[j],
            ) by {
                assert(precedes(b[i], b[j]));
            }
        }
        lemma_strictly_increasing_unique(a0, b0);
        assert(a =~= a0.push(la));
        assert(b =~= b0.push(lb));
    }
}

/// A text put into a strictly ascending sequence at the place where it
/// belongs leaves the sequence strictly ascending.
pub proof fn lemma_insert_keeps_increasing(s: Seq<Seq<char>>, at: int, x: Seq<char>)
    requires
        strictly_increasing(s),
        0 <= at <= s.len(),
        forall|k: int| 0 <= k < at ==> precedes(#[trigger] s[k], x),
        at < s.len() ==> !precedes(s[at], x) && s[at] != x,
    ensures
        strictly_increasing(s.insert(at, x)),
{
    let t = s.insert(at, x);
    assert forall|i: int, j: int| 0 <= i < j < t.len() implies precedes(
        #[trigger] t[i],
        #[trigger] t[j],
    ) by {
        if j < at {
            assert(t[i] == s[i] && t[j] == s[j]);
        } else if j == at {
            assert(t[i] == s[i] && t[j] == x);
        } else {
            assert(t[j] == s[j - 1]);
            lemma_precedes_connected(s[at], x);
            if at < j - 1 {
                assert(precedes(s[at], s[j - 1]));
                lemma_precedes_transitive(x, s[at], s[j - 1], 0);
            }
            if i < at {
                assert(t[i] == s[i]);
                lemma_precedes_transitive(s[i], x, s[j - 1], 0);
            } else if i > at {
                assert(t[i] == s[i - 1]);
                assert(precedes(s[i - 1], s[j - 1]));
            } else {
                assert(t[i] == x);
            }
        }
    }
}

/// The members of a sequence with one more text put in.
pub proof fn lemma_insert_to_set(s: Seq<Seq<char>>, at: int, x: Seq<char>)
    requires
        0 <= at <= s.len(),
    ensures
        s.insert(at, x).to_set() == s.to_set().insert(x),
{
    let t = s.insert(at, x);
    assert forall|y: Seq<char>| t.to_set().contains(y) <==> s.to_set().insert(x).contains(y) by {
        if t.contains(y) {
            let k = choose|k: int| 0 <= k < t.len() && t[k] == y;
            if k < at {
                assert(s[k] == y);
            } else if k > at {
                assert(s[k - 1] == y);
            }
        }
        if s.contains(y) {
            let k = choose|k: int| 0 <= k < s.len() && s[k] == y;
            if k < at {
                assert(t[k] == y);
            } else {
                assert(t[k + 1] == y);
            }
        }
        if y == x {
            assert(t[at] == y);
        }
    }
    assert(t.to_set() =~= s.to_set().insert(x));
}

/// The members of the first `n + 1` texts are those of the first `n` and
/// the text at `n`.
pub proof fn lemma_take_to_set(s: Seq<Seq<char>>, n: int)
    requires
        0 <= n < s.len(),
    ensures
        s.take(n + 1).to_set() == s.take(n).to_set().insert(s[n]),
{
    assert(s.take(n + 1) =~= s.take(n).insert(n, s[n]));
    lemma_insert_to_set(s.take(n), n, s[n]);
}

/// The paths in ascending order, each of them once.
pub fn sort_dedup(paths: &Vec<String>) -> (r: Vec<String>)
    ensures
        strictly_increasing(texts(r@)),
        texts(r@).to_set() == texts(paths@).to_set(),
{
    let mut out: Vec<String> = Vec::new();
    let mut i: usize = 0;
    assert(texts(out@).to_set() =~= texts(paths@).take(0).to_set());
    while i < paths.len()
        invariant
            i <= paths.len(),
            strictly_increasing(texts(out@)),
            texts(out@).to_set() == texts(paths@).take(i as int).to_set(),
        decreases paths.len() - i,
    {
        let x = to_chars(paths[i].as_str());
        let ghost sorted = texts(out@);
        let mut at: usize = 0;
        while at < out.len() && text_precedes(&to_chars(out[at].as_str()), &x)
            invariant
                at <= out.len(),
                sorted == texts(out@),
                forall|k: int| 0 <= k < at ==> precedes(#[trigger] sorted[k], x@),
            decreases out.len() - at,
        {
            at += 1;
        }
        let present = at < out.len() && same_text(&to_chars(out[at].as_str()), &x);
        proof {
            lemma_take_to_set(texts(paths@), i as int);
        }
        if present {
            assert(sorted[at as int] == x@);
            assert(sorted.contains(x@));
            assert(sorted.to_set().insert(x@) =~= sorted.to_set());
        } else {
            let next = paths[i].clone();
            proof {
                lemma_insert_keeps_increasing(sorted, at as int, x@);
                lemma_insert_to_set(sorted, at as int, x@);
                assert(texts(out@.insert(at as int, next)) =~= sorted.insert(at as int, x@));
            }
            out.insert(at, next);
        }
        i += 1;
    }
    assert(texts(paths@).take(i as int) =~= texts(paths@));
    out
}

} // verus!
