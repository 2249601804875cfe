use vstd::prelude::*;
use crate::host::SessionInfo;
use vstd::arithmetic::div_mod::{lemma_small_mod, lemma_mod_self_0};

verus! {

/// Lexicographic order on names, by unicode scalar value, shorter prefixes
/// first: the order session names are cycled in.
pub open spec fn lex_lt(a: Seq<char>, b: Seq<char>) -> bool
    decreases a.len(),
{
    if b.len() == 0 {
        false
    } else if a.len() == 0 {
        true
    } else if (a[0] as u32) < (b[0] as u32) {
        true
    } else if (b[0] as u32) < (a[0] as u32) {
        false
    } else {
        lex_lt(a.skip(1), b.skip(1))
    }
}

/// The name order is asymmetric.
pub proof fn lemma_lex_asym(a: Seq<char>, b: Seq<char>)
    requires
        lex_lt(a, b),
    ensures
        !lex_lt(b, a),
    decreases a.len(),
{
    if b.len() == 0 {
    } else if a.len() == 0 {
    } else if (a[0] as u32) < (b[0] as u32) {
    } else if (b[0] as u32) < (a[0] as u32) {
    } else {
        lemma_lex_asym(a.skip(1), b.skip(1));
    }
}

/// The name order is transitive.
pub proof fn lemma_lex_trans(a: Seq<char>, b: Seq<char>, c: Seq<char>)
    requires
        lex_lt(a, b),
        lex_lt(b, c),
    ensures
        lex_lt(a, c),
    decreases a.len(),
{
    if c.len() == 0 {
    } else if b.len() == 0 {
    } else if a.len() == 0 {
    } else {
        if (a[0] as u32) == (b[0] as u32) && (b[0] as u32) == (c[0] as u32) {
            lemma_lex_trans(a.skip(1), b.skip(1), c.skip(1));
        }
    }
}

/// Whether `a` comes strictly before `b` in name order.
pub fn str_lt(a: &str, b: &str) -> (r: bool)
    ensures
        r == lex_lt(a@, b@),
{
    let la = a.unicode_len();
    let lb = b.unicode_len();
    let mut i: usize = 0;
    proof {
        assert(a@.skip(0) =~= a@);
        assert(b@.skip(0) =~= b@);
    }
    while i < la && i < lb
        invariant
            i <= la && i <= lb,
            la == a@.len() && lb == b@.len(),
            lex_lt(a@, b@) == lex_lt(a@.skip(i as int), b@.skip(i as int)),
        decreases la - i,
    {
        proof {
            assert(a@.skip(i as int)[0] == a@[i as int]);
            assert(b@.skip(i as int)[0] == b@[i as int]);
            assert(a@.skip(i as int).skip(1) =~= a@.skip(i as int + 1));
            assert(b@.skip(i as int).skip(1) =~= b@.skip(i as int + 1));
        }
        let ca = a.get_char(i);
        let cb = b.get_char(i);
        if (ca as u32) < (cb as u32) {
            return true;
        }
        if (cb as u32) < (ca as u32) {
            return false;
        }
        i = i + 1;
    }
    proof {
        if i == la {
            assert(a@.skip(i as int).len() == 0);
        }
        if i == lb {
            assert(b@.skip(i as int).len() == 0);
        }
    }
    la < lb
}

/// What the next-session choice must be: an existing session's name; the
/// least name above the current one when any name is above it, and the
/// least name overall when none is (the cycle wraps).
pub open spec fn selection_ok(ss: Seq<SessionInfo>, current: Seq<char>, c: Seq<char>) -> bool {
    (exists|k: int| 0 <= k < ss.len() && (#[trigger] ss[k].name@) == c) && (if exists|j: int|
        0 <= j < ss.len() && lex_lt(current, (#[trigger] ss[j].name@)) {
        lex_lt(current, c) && forall|j: int|
            (0 <= j < ss.len() && lex_lt(current, (#[trigger] ss[j].name@))) ==> !lex_lt(
                ss[j].name@,
                c,
            )
    } else {
        forall|j: int| 0 <= j < ss.len() ==> !lex_lt((#[trigger] ss[j].name@), c)
    })
}

/// The session to hand off to next: the session whose name follows
/// `current` in name order, cyclically; nothing when at most one session
/// exists.
pub fn next_session_name(sessions: &Vec<SessionInfo>, current: &str) -> (r: Option<String>)
    ensures
        sessions@.len() <= 1 ==> r is None,
        sessions@.len() > 1 ==> r is Some,
        r matches Some(c) ==> selection_ok(sessions@, current@, c@),
{
    let n = sessions.len();
    if n <= 1 {
        return None;
    }
    let mut best: Option<usize> = None;
    let mut i: usize = 0;
    while i < n
        invariant
            i <= n,
            n == sessions@.len(),
            (match best {
                None => forall|j: int|
                    0 <= j < i ==> !lex_lt(current@, (#[trigger] sessions@[j].name@)),
                Some(b) => b < i && lex_lt(current@, sessions@[b as int].name@) && forall|j: int|
                    (0 <= j < i && lex_lt(current@, (#[trigger] sessions@[j].name@))) ==> !lex_lt(
                        sessions@[j].name@,
                        sessions@[b as int].name@,
                    ),
            }),
        decreases n - i,
    {
        if str_lt(current, sessions[i].name.as_str()) {
            let take = match best {
                None => true,
                Some(b) => str_lt(sessions[i].name.as_str(), sessions[b].name.as_str()),
            };
            if take {
                proof {
                    if best is None {
                        assert forall|j: int|
                            (0 <= j < i + 1 && lex_lt(
                                current@,
                                (#[trigger] sessions@[j].name@),
                            )) implies !lex_lt(sessions@[j].name@, sessions@[i as int].name@) by {
                            if j == i {
                                if lex_lt(sessions@[j].name@, sessions@[i as int].name@) {
                                    lemma_lex_asym(sessions@[j].name@, sessions@[i as int].name@);
                                }
                            }
                        }
                    }
                    if best is Some {
                        let b = best->Some_0 as int;
                        assert forall|j: int|
                            (0 <= j < i + 1 && lex_lt(
                                current@,
                                (#[trigger] sessions@[j].name@),
                            )) implies !lex_lt(sessions@[j].name@, sessions@[i as int].name@) by {
                            if j < i && lex_lt(sessions@[j].name@, sessions@[i as int].name@) {
                                lemma_lex_trans(
                                    sessions@[j].name@,
                                    sessions@[i as int].name@,
                                    sessions@[b].name@,
                                );
                            }
                            if j == i {
                                if lex_lt(sessions@[j].name@, sessions@[i as int].name@) {
                                    lemma_lex_asym(sessions@[j].name@, sessions@[i as int].name@);
                                }
                            }
                        }
                    }
                }
                best = Some(i);
            } else {
                proof {
                    let b = best->Some_0 as int;
                    assert forall|j: int|
                        (0 <= j < i + 1 && lex_lt(current@, (#[trigger] sessions@[j].name@)))
                        implies !lex_lt(sessions@[j].name@, sessions@[b].name@) by {}
                }
            }
        }
        i = i + 1;
    }
    match best {
        Some(b) => Some(sessions[b].name.clone()),
        None => {
            let mut least: usize = 0;
            let mut k: usize = 1;
            proof {
                if lex_lt(sessions@[0].name@, sessions@[0].name@) {
                    lemma_lex_asym(sessions@[0].name@, sessions@[0].name@);
                }
            }
            while k < n
                invariant
                    1 <= k <= n,
                    n == sessions@.len(),
                    (least as int) < k,
                    forall|j: int|
                        0 <= j < k ==> !lex_lt(
                            (#[trigger] sessions@[j].name@),
                            sessions@[least as int].name@,
                        ),
                decreases n - k,
            {
                if str_lt(sessions[k].name.as_str(), sessions[least].name.as_str()) {
                    proof {
                        let l = least as int;
                        assert forall|j: int|
                            0 <= j < k + 1 implies !lex_lt(
                            (#[trigger] sessions@[j].name@),
                            sessions@[k as int].name@,
                        ) by {
                            if j < k && lex_lt(sessions@[j].name@, sessions@[k as int].name@) {
                                lemma_lex_trans(
                                    sessions@[j].name@,
                                    sessions@[k as int].name@,
                                    sessions@[l].name@,
                                );
                            }
                            if j == k {
                                if lex_lt(sessions@[j].name@, sessions@[k as int].name@) {
                                    lemma_lex_asym(sessions@[j].name@, sessions@[k as int].name@);
                                }
                            }
                        }
                    }
                    least = k;
                } else {
                    proof {
                        assert forall|j: int|
                            0 <= j < k + 1 implies !lex_lt(
                            (#[trigger] sessions@[j].name@),
                            sessions@[least as int].name@,
                        ) by {}
                    }
                }
                k = k + 1;
            }
            Some(sessions[least].name.clone())
        },
    }
}

/// Law: next-session selection is cyclic. Over sessions sorted by name with
/// the current one at position `i`, any name meeting the selection rule is
/// the name at position `i + 1`, wrapping past the end to the first.
pub proof fn lemma_next_session_cyclic(
    ss: Seq<SessionInfo>,
    current: Seq<char>,
    i: int,
    c: Seq<char>,
)
    requires
        ss.len() > 1,
        forall|p: int, q: int|
            0 <= p < q < ss.len() ==> lex_lt((#[trigger] ss[p].name@), (#[trigger] ss[q].name@)),
        0 <= i < ss.len(),
        ss[i].name@ == current,
        selection_ok(ss, current, c),
    ensures
        c == ss[(i + 1) % (ss.len() as int)].name@,
{
    let n = ss.len() as int;
    let k = choose|k: int| 0 <= k < n && (#[trigger] ss[k].name@) == c;
    if i < n - 1 {
        assert(lex_lt(current, ss[i + 1].name@));
        assert(lex_lt(current, c));
        if k < i {
            assert(lex_lt(ss[k].name@, ss[i].name@));
            lemma_lex_asym(ss[k].name@, ss[i].name@);
            assert(false);
        }
        if k == i {
            lemma_lex_asym(current, c);
            assert(false);
        }
        if k > i + 1 {
            assert(lex_lt(ss[i + 1].name@, ss[k].name@));
            assert(!lex_lt(ss[i + 1].name@, c));
            assert(false);
        }
        assert(k == i + 1);
        lemma_small_mod((i + 1) as nat, n as nat);
        assert((i + 1) % n == i + 1);
    } else {
        assert forall|j: int| 0 <= j < n implies !lex_lt(current, (#[trigger] ss[j].name@)) by {
            if j < i {
                lemma_lex_asym(ss[j].name@, ss[i].name@);
            }
            if j == i {
                if lex_lt(current, ss[j].name@) {
                    lemma_lex_asym(current, ss[j].name@);
                }
            }
        }
        if k > 0 {
            assert(lex_lt(ss[0].name@, ss[k].name@));
            assert(!lex_lt(ss[0].name@, c));
            assert(false);
        }
        assert(k == 0);
        lemma_mod_self_0(n);
        assert((i + 1) % n == 0);
    }
}

} // verus!
