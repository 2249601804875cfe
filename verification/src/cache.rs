use vstd::prelude::*;
use vstd::arithmetic::div_mod::{lemma_fundamental_div_mod, lemma_fundamental_div_mod_converse};

verus! {

/// The last known focus of one client in one session: the focused tab's
/// position and the focused pane's id, with whether that pane is a plugin
/// pane.
#[derive(Clone, Copy, Debug, PartialEq, Eq, Structural)]
pub struct ClientLayout {
    pub tab_idx: usize,
    pub pane_id: u32,
    pub pane_is_plugin: bool,
}

/// One stored association: a client process id and its last known layout.
#[derive(Clone, Copy, Debug, PartialEq, Eq, Structural)]
pub struct CacheEntry {
    pub pid: u32,
    pub layout: ClientLayout,
}

/// The per-session focus store: the remembered layout of each client
/// process id.
#[derive(Debug)]
pub struct CacheStore {
    pub entries: Vec<CacheEntry>,
}

/// The layout stored for `pid`: the first entry with that id, if any.
pub open spec fn spec_get(s: Seq<CacheEntry>, pid: u32) -> Option<ClientLayout>
    decreases s.len(),
{
    if s.len() == 0 {
        None
    } else if s[0].pid == pid {
        Some(s[0].layout)
    } else {
        spec_get(s.skip(1), pid)
    }
}

/// The store after writing `l` for `pid`: the first entry with that id is
/// replaced, or a new entry is appended when there is none.
pub open spec fn spec_insert(s: Seq<CacheEntry>, pid: u32, l: ClientLayout) -> Seq<CacheEntry>
    decreases s.len(),
{
    if s.len() == 0 {
        seq![CacheEntry { pid, layout: l }]
    } else if s[0].pid == pid {
        seq![CacheEntry { pid, layout: l }] + s.skip(1)
    } else {
        seq![s[0]] + spec_insert(s.skip(1), pid, l)
    }
}

/// Law: reading a client's entry right after writing it yields exactly the
/// written layout.
pub proof fn lemma_get_after_insert(s: Seq<CacheEntry>, pid: u32, l: ClientLayout)
    ensures
        spec_get(spec_insert(s, pid, l), pid) == Some(l),
    decreases s.len(),
{
    if s.len() == 0 {
    } else if s[0].pid == pid {
        assert((seq![CacheEntry { pid, layout: l }] + s.skip(1))[0] == CacheEntry {
            pid,
            layout: l,
        });
    } else {
        lemma_get_after_insert(s.skip(1), pid, l);
        assert((seq![s[0]] + spec_insert(s.skip(1), pid, l)).skip(1) =~= spec_insert(
            s.skip(1),
            pid,
            l,
        ));
    }
}

/// Law: writing one client's entry leaves every other client's entry as it
/// was.
pub proof fn lemma_insert_frames_others(s: Seq<CacheEntry>, pid: u32, l: ClientLayout, q: u32)
    requires
        q != pid,
    ensures
        spec_get(spec_insert(s, pid, l), q) == spec_get(s, q),
    decreases s.len(),
{
    if s.len() == 0 {
        assert(seq![CacheEntry { pid, layout: l }][0] == CacheEntry { pid, layout: l });
        assert(seq![CacheEntry { pid, layout: l }].skip(1) =~= Seq::<CacheEntry>::empty());
        assert(spec_get(Seq::<CacheEntry>::empty(), q) is None);
    } else if s[0].pid == pid {
        assert((seq![CacheEntry { pid, layout: l }] + s.skip(1))[0] == CacheEntry {
            pid,
            layout: l,
        });
        assert((seq![CacheEntry { pid, layout: l }] + s.skip(1)).skip(1) =~= s.skip(1));
    } else {
        lemma_insert_frames_others(s.skip(1), pid, l, q);
        assert((seq![s[0]] + spec_insert(s.skip(1), pid, l)).skip(1) =~= spec_insert(
            s.skip(1),
            pid,
            l,
        ));
        assert((seq![s[0]] + spec_insert(s.skip(1), pid, l))[0] == s[0]);
    }
}

/// Whether a store holds at most one entry per client process id.
pub open spec fn unique_pids(s: Seq<CacheEntry>) -> bool {
    forall|i: int, j: int| 0 <= i < j < s.len() ==> (#[trigger] s[i].pid) != (#[trigger] s[j].pid)
}

/// Whether some entry of the store carries this id.
pub open spec fn has_pid(s: Seq<CacheEntry>, pid: u32) -> bool {
    exists|k: int| 0 <= k < s.len() && (#[trigger] s[k].pid) == pid
}

/// Every id in the store after a write is the written id or one that was
/// already there.
proof fn lemma_spec_insert_pids(s: Seq<CacheEntry>, pid: u32, l: ClientLayout)
    ensures
        forall|k: int|
            0 <= k < spec_insert(s, pid, l).len() ==> ((#[trigger] spec_insert(s, pid, l)[k].pid)
                == pid || has_pid(s, spec_insert(s, pid, l)[k].pid)),
    decreases s.len(),
{
    let r = spec_insert(s, pid, l);
    if s.len() == 0 {
    } else if s[0].pid == pid {
        assert forall|k: int| 0 <= k < r.len() implies ((#[trigger] r[k].pid) == pid || has_pid(
            s,
            r[k].pid,
        )) by {
            if k > 0 {
                assert(r[k] == s.skip(1)[k - 1]);
                assert(s.skip(1)[k - 1] == s[k]);
                assert(has_pid(s, s[k].pid));
            }
        }
    } else {
        lemma_spec_insert_pids(s.skip(1), pid, l);
        let rr = spec_insert(s.skip(1), pid, l);
        assert forall|k: int| 0 <= k < r.len() implies ((#[trigger] r[k].pid) == pid || has_pid(
            s,
            r[k].pid,
        )) by {
            if k == 0 {
                assert(r[0] == s[0]);
                assert(has_pid(s, s[0].pid));
            } else {
                assert(r[k] == rr[k - 1]);
                if rr[k - 1].pid != pid {
                    let j = choose|j: int|
                        0 <= j < s.skip(1).len() && (#[trigger] s.skip(1)[j].pid) == rr[k - 1].pid;
                    assert(s.skip(1)[j] == s[j + 1]);
                    assert(has_pid(s, rr[k - 1].pid));
                }
            }
        }
    }
}

/// Law: writing one entry keeps the store's ids unique — the at-most-one
/// layout per client invariant survives every write.
pub proof fn lemma_insert_preserves_unique(s: Seq<CacheEntry>, pid: u32, l: ClientLayout)
    requires
        unique_pids(s),
    ensures
        unique_pids(spec_insert(s, pid, l)),
    decreases s.len(),
{
    let r = spec_insert(s, pid, l);
    if s.len() == 0 {
    } else if s[0].pid == pid {
        assert forall|i: int, j: int| 0 <= i < j < r.len() implies (#[trigger] r[i].pid)
            != (#[trigger] r[j].pid) by {
            if i == 0 {
                assert(r[j] == s.skip(1)[j - 1]);
                assert(s.skip(1)[j - 1] == s[j]);
            } else {
                assert(r[i] == s[i]);
                assert(r[j] == s[j]);
            }
        }
    } else {
        assert forall|i: int, j: int|
            0 <= i < j < s.skip(1).len() implies (#[trigger] s.skip(1)[i].pid)
            != (#[trigger] s.skip(1)[j].pid) by {
            assert(s.skip(1)[i] == s[i + 1]);
            assert(s.skip(1)[j] == s[j + 1]);
        }
        lemma_insert_preserves_unique(s.skip(1), pid, l);
        lemma_spec_insert_pids(s.skip(1), pid, l);
        let rr = spec_insert(s.skip(1), pid, l);
        assert forall|i: int, j: int| 0 <= i < j < r.len() implies (#[trigger] r[i].pid)
            != (#[trigger] r[j].pid) by {
            if i == 0 {
                assert(r[0] == s[0]);
                assert(r[j] == rr[j - 1]);
                if rr[j - 1].pid != pid {
                    let w = choose|w: int|
                        0 <= w < s.skip(1).len() && (#[trigger] s.skip(1)[w].pid) == rr[j - 1].pid;
                    assert(s.skip(1)[w] == s[w + 1]);
                }
            } else {
                assert(r[i] == rr[i - 1]);
                assert(r[j] == rr[j - 1]);
            }
        }
    }
}

impl CacheStore {
    /// An empty store.
    pub fn new() -> (r: CacheStore)
        ensures
            r.entries@ == Seq::<CacheEntry>::empty(),
            unique_pids(r.entries@),
    {
        CacheStore { entries: Vec::new() }
    }

    /// The layout stored for `pid`, if any.
    pub fn get(&self, pid: u32) -> (r: Option<ClientLayout>)
        ensures
            r == spec_get(self.entries@, pid),
    {
        let mut i: usize = 0;
        proof {
            assert(self.entries@.skip(0) =~= self.entries@);
        }
        while i < self.entries.len()
            invariant
                i <= self.entries.len(),
                spec_get(self.entries@, pid) == spec_get(self.entries@.skip(i as int), pid),
            decreases self.entries.len() - i,
        {
            proof {
                assert(self.entries@.skip(i as int)[0] == self.entries@[i as int]);
                assert(self.entries@.skip(i as int).skip(1) =~= self.entries@.skip(i as int + 1));
            }
            if self.entries[i].pid == pid {
                return Some(self.entries[i].layout);
            }
            i = i + 1;
        }
        proof {
            assert(self.entries@.skip(self.entries@.len() as int) =~= Seq::<CacheEntry>::empty());
        }
        None
    }

    /// Writes `l` as the layout of `pid`, replacing any earlier entry.
    pub fn insert(&mut self, pid: u32, l: ClientLayout)
        ensures
            final(self).entries@ == spec_insert(old(self).entries@, pid, l),
            unique_pids(old(self).entries@) ==> unique_pids(final(self).entries@),
    {
        let ghost s0 = self.entries@;
        let mut i: usize = 0;
        proof {
            assert(s0.skip(0) =~= s0);
            assert(s0.take(0) + spec_insert(s0, pid, l) =~= spec_insert(s0, pid, l));
        }
        while i < self.entries.len()
            invariant
                i <= self.entries.len(),
                self.entries@ == s0,
                s0 == old(self).entries@,
                spec_insert(s0, pid, l) == s0.take(i as int) + spec_insert(
                    s0.skip(i as int),
                    pid,
                    l,
                ),
                forall|j: int| 0 <= j < i ==> s0[j].pid != pid,
            decreases self.entries.len() - i,
        {
            proof {
                assert(s0.skip(i as int)[0] == s0[i as int]);
                assert(s0.skip(i as int).skip(1) =~= s0.skip(i as int + 1));
            }
            if self.entries[i].pid == pid {
                self.entries.remove(i);
                self.entries.insert(i, CacheEntry { pid, layout: l });
                proof {
                    assert(spec_insert(s0.skip(i as int), pid, l) == seq![
                        CacheEntry { pid, layout: l },
                    ] + s0.skip(i as int).skip(1));
                    assert(self.entries@ =~= s0.take(i as int) + (seq![
                        CacheEntry { pid, layout: l },
                    ] + s0.skip(i as int).skip(1)));
                    assert(spec_insert(s0, pid, l) == s0.take(i as int) + (seq![
                        CacheEntry { pid, layout: l },
                    ] + s0.skip(i as int).skip(1)));
                    assert(self.entries@ == spec_insert(s0, pid, l));
                }
                return ;
            }
            proof {
                assert(s0.take(i as int).push(s0[i as int]) =~= s0.take(i as int + 1));
                assert(s0.take(i as int) + (seq![s0[i as int]] + spec_insert(
                    s0.skip(i as int + 1),
                    pid,
                    l,
                )) =~= s0.take(i as int + 1) + spec_insert(s0.skip(i as int + 1), pid, l));
            }
            i = i + 1;
        }
        proof {
            assert(s0.skip(s0.len() as int) =~= Seq::<CacheEntry>::empty());
        }
        self.entries.push(CacheEntry { pid, layout: l });
        proof {
            assert(spec_insert(s0.skip(s0.len() as int), pid, l) == seq![
                CacheEntry { pid, layout: l },
            ]);
            assert(self.entries@ =~= s0.take(s0.len() as int) + spec_insert(
                s0.skip(s0.len() as int),
                pid,
                l,
            ));
            if unique_pids(s0) {
                lemma_insert_preserves_unique(s0, pid, l);
            }
        }
    }
}

/// Whether a byte is an ASCII decimal digit.
pub open spec fn is_digit(b: u8) -> bool {
    48 <= b && b <= 57
}

/// The decimal digits of `n`, most significant first.
pub open spec fn enc_u64(n: nat) -> Seq<u8>
    decreases n,
{
    if n < 10 {
        seq![(48 + n) as u8]
    } else {
        enc_u64(n / 10) + seq![(48 + n % 10) as u8]
    }
}

/// The value of an all-digit byte sequence, read in decimal.
pub open spec fn dec_digits(s: Seq<u8>) -> nat
    decreases s.len(),
{
    if s.len() == 0 {
        0
    } else {
        dec_digits(s.drop_last()) * 10 + (if s.last() >= 48 {
            (s.last() - 48) as nat
        } else {
            0
        })
    }
}

/// A decimal encoding is nonempty, all digits, and reads back as the number
/// it was made from.
pub proof fn lemma_enc_u64_props(n: nat)
    ensures
        enc_u64(n).len() >= 1,
        forall|i: int| 0 <= i < enc_u64(n).len() ==> is_digit(#[trigger] enc_u64(n)[i]),
        dec_digits(enc_u64(n)) == n,
        enc_u64(n).len() > 1 ==> enc_u64(n)[0] != 48,
    decreases n,
{
    if n < 10 {
        assert(enc_u64(n) == seq![(48 + n) as u8]);
        assert(enc_u64(n)[0] == (48 + n) as u8);
        assert(is_digit(enc_u64(n)[0]));
        assert(enc_u64(n).drop_last() =~= Seq::<u8>::empty());
        assert(dec_digits(enc_u64(n).drop_last()) == 0);
        assert(enc_u64(n).last() == (48 + n) as u8);
        assert(dec_digits(enc_u64(n)) == n);
    } else {
        lemma_enc_u64_props(n / 10);
        lemma_fundamental_div_mod(n as int, 10);
        assert(enc_u64(n).drop_last() =~= enc_u64(n / 10));
        assert(enc_u64(n).last() == (48 + n % 10) as u8);
        assert(dec_digits(enc_u64(n)) == dec_digits(enc_u64(n / 10)) * 10 + (n % 10));
        assert(dec_digits(enc_u64(n)) == n);
        assert(enc_u64(n)[0] == enc_u64(n / 10)[0]);
        assert(n / 10 >= 1);
        if n / 10 < 10 {
            assert(enc_u64(n / 10) == seq![(48 + n / 10) as u8]);
            assert(enc_u64(n)[0] != 48);
        } else {
            lemma_enc_u64_props(n / 10 / 10);
            assert(enc_u64(n / 10).len() > 1);
            assert(enc_u64(n)[0] != 48);
        }
        assert forall|i: int| 0 <= i < enc_u64(n).len() implies is_digit(
            #[trigger] enc_u64(n)[i],
        ) by {
            if i < enc_u64(n / 10).len() {
                assert(enc_u64(n)[i] == enc_u64(n / 10)[i]);
            }
        }
    }
}

/// Reading a prefix of an all-digit sequence never exceeds reading it all.
pub proof fn lemma_dec_prefix_le(s: Seq<u8>, k: int)
    requires
        0 <= k <= s.len(),
    ensures
        dec_digits(s.take(k)) <= dec_digits(s),
    decreases s.len() - k,
{
    if k == s.len() {
        assert(s.take(k) =~= s);
    } else {
        lemma_dec_prefix_le(s, k + 1);
        assert(s.take(k + 1).drop_last() =~= s.take(k));
        assert(dec_digits(s.take(k + 1)) >= dec_digits(s.take(k)));
    }
}

/// A nonempty digit string without a leading zero is the one encoding of
/// its value.
proof fn lemma_digits_canonical(d: Seq<u8>)
    requires
        d.len() >= 1,
        forall|k: int| 0 <= k < d.len() ==> is_digit(#[trigger] d[k]),
        d.len() > 1 ==> d[0] != 48,
    ensures
        enc_u64(dec_digits(d)) == d,
    decreases d.len(),
{
    if d.len() == 1 {
        assert(d.drop_last() =~= Seq::<u8>::empty());
        assert(dec_digits(Seq::<u8>::empty()) == 0);
        assert(d.last() == d[0]);
        assert(is_digit(d[0]));
        assert(dec_digits(d) == (d.last() - 48) as nat);
        assert(enc_u64(dec_digits(d)) =~= d);
    } else {
        let dp = d.drop_last();
        assert(forall|k: int| 0 <= k < dp.len() ==> dp[k] == #[trigger] d[k]);
        lemma_digits_canonical(dp);
        let v = (d.last() - 48) as nat;
        let n = dec_digits(d);
        assert(n == dec_digits(dp) * 10 + v);
        assert(dp.take(1).drop_last() =~= Seq::<u8>::empty());
        assert(dec_digits(Seq::<u8>::empty()) == 0);
        assert(dp.take(1).last() == dp[0]);
        assert(dp[0] == d[0]);
        assert(is_digit(d[0]));
        assert(dp[0] != 48 && is_digit(dp[0]));
        assert(dec_digits(dp.take(1)) == (dp.take(1).last() - 48) as nat);
        assert(dec_digits(dp.take(1)) >= 1);
        lemma_dec_prefix_le(dp, 1);
        assert(dec_digits(dp) >= 1);
        assert(n >= 10);
        lemma_fundamental_div_mod_converse(n as int, 10, dec_digits(dp) as int, v as int);
        assert(n / 10 == dec_digits(dp));
        assert(n % 10 == v);
        assert(enc_u64(n) == enc_u64(dec_digits(dp)) + seq![(48 + v) as u8]);
        assert((48 + v) as u8 == d.last());
        assert(enc_u64(n) =~= d);
    }
}

/// Adjacent subranges concatenate.
proof fn lemma_subrange_glue(s: Seq<u8>, a: int, b: int, c: int)
    requires
        0 <= a <= b <= c <= s.len(),
    ensures
        s.subrange(a, c) == s.subrange(a, b) + s.subrange(b, c),
{
    assert(s.subrange(a, c) =~= s.subrange(a, b) + s.subrange(b, c));
}

/// The bytes between an entry's quoted client id and its tab index.
pub open spec fn lit_tab() -> Seq<u8> {
    seq![34u8, 58u8, 123u8, 34u8, 116u8, 97u8, 98u8, 95u8, 105u8, 100u8, 120u8, 34u8, 58u8]
}

/// The bytes between a tab index and its pane in the store file.
pub open spec fn lit_pane() -> Seq<u8> {
    seq![44u8, 34u8, 112u8, 97u8, 110u8, 101u8, 34u8, 58u8, 91u8]
}

/// The bytes that close one entry of the store file.
pub open spec fn lit_close() -> Seq<u8> {
    seq![93u8, 125u8]
}

/// The bytes of the word for truth.
pub open spec fn lit_true() -> Seq<u8> {
    seq![116u8, 114u8, 117u8, 101u8]
}

/// The bytes of the word for falsehood.
pub open spec fn lit_false() -> Seq<u8> {
    seq![102u8, 97u8, 108u8, 115u8, 101u8]
}

/// How a truth value is written in the store file.
pub open spec fn enc_bool(v: bool) -> Seq<u8> {
    if v {
        lit_true()
    } else {
        lit_false()
    }
}

/// How one entry is written: the client id as a quoted decimal key, then an
/// object with the tab index and the pane pair.
pub open spec fn enc_entry(e: CacheEntry) -> Seq<u8> {
    seq![34u8] + enc_u64(e.pid as nat) + lit_tab() + enc_u64(e.layout.tab_idx as nat) + lit_pane()
        + enc_u64(e.layout.pane_id as nat) + seq![44u8] + enc_bool(e.layout.pane_is_plugin)
        + lit_close()
}

/// How the entries after the first are written: each preceded by a comma.
pub open spec fn enc_rest(s: Seq<CacheEntry>) -> Seq<u8>
    decreases s.len(),
{
    if s.len() == 0 {
        Seq::empty()
    } else {
        seq![44u8] + enc_entry(s[0]) + enc_rest(s.skip(1))
    }
}

/// How the entry list is written, commas between entries.
pub open spec fn enc_entries(s: Seq<CacheEntry>) -> Seq<u8> {
    if s.len() == 0 {
        Seq::empty()
    } else {
        enc_entry(s[0]) + enc_rest(s.skip(1))
    }
}

/// How the whole store is written: the entry list inside one brace pair.
pub open spec fn enc_cache(s: Seq<CacheEntry>) -> Seq<u8> {
    seq![123u8] + enc_entries(s) + seq![125u8]
}

/// Appending one entry to the list appends its encoding, comma-separated.
pub proof fn lemma_enc_rest_snoc(s: Seq<CacheEntry>, e: CacheEntry)
    ensures
        enc_rest(s.push(e)) == enc_rest(s) + seq![44u8] + enc_entry(e),
    decreases s.len(),
{
    if s.len() == 0 {
        assert(s.push(e)[0] == e);
        assert(s.push(e).skip(1) =~= Seq::<CacheEntry>::empty());
        assert(enc_rest(s.push(e)) == seq![44u8] + enc_entry(e) + enc_rest(
            Seq::<CacheEntry>::empty(),
        ));
        assert(seq![44u8] + enc_entry(e) + enc_rest(Seq::<CacheEntry>::empty()) =~= seq![44u8]
            + enc_entry(e));
        assert(enc_rest(s) + seq![44u8] + enc_entry(e) =~= seq![44u8] + enc_entry(e));
    } else {
        assert(s.push(e).skip(1) =~= s.skip(1).push(e));
        assert(s.push(e)[0] == s[0]);
        lemma_enc_rest_snoc(s.skip(1), e);
        assert(enc_rest(s.push(e)) == seq![44u8] + enc_entry(s[0]) + (enc_rest(s.skip(1))
            + seq![44u8] + enc_entry(e)));
        assert(seq![44u8] + enc_entry(s[0]) + (enc_rest(s.skip(1)) + seq![44u8] + enc_entry(e))
            =~= (seq![44u8] + enc_entry(s[0]) + enc_rest(s.skip(1))) + seq![44u8] + enc_entry(e));
    }
}

/// Appending one entry to the list appends its encoding to the list's.
pub proof fn lemma_enc_entries_snoc(s: Seq<CacheEntry>, e: CacheEntry)
    ensures
        enc_entries(s.push(e)) == enc_entries(s) + (if s.len() == 0 {
            enc_entry(e)
        } else {
            seq![44u8] + enc_entry(e)
        }),
    decreases s.len(),
{
    if s.len() == 0 {
        assert(s.push(e)[0] == e);
        assert(s.push(e).skip(1) =~= Seq::<CacheEntry>::empty());
        assert(enc_entries(s.push(e)) == enc_entry(e) + enc_rest(Seq::<CacheEntry>::empty()));
        assert(enc_entry(e) + enc_rest(Seq::<CacheEntry>::empty()) =~= enc_entry(e));
        assert(enc_entries(s) + enc_entry(e) =~= enc_entry(e));
    } else {
        assert(s.push(e)[0] == s[0]);
        assert(s.push(e).skip(1) =~= s.skip(1).push(e));
        lemma_enc_rest_snoc(s.skip(1), e);
        assert(enc_entries(s.push(e)) == enc_entry(s[0]) + (enc_rest(s.skip(1)) + seq![44u8]
            + enc_entry(e)));
        assert(enc_entry(s[0]) + (enc_rest(s.skip(1)) + seq![44u8] + enc_entry(e)) =~= (enc_entry(
            s[0],
        ) + enc_rest(s.skip(1))) + (seq![44u8] + enc_entry(e)));
    }
}

/// Appends the given bytes.
fn push_bytes(out: &mut Vec<u8>, bytes: &[u8])
    ensures
        final(out)@ == old(out)@ + bytes@,
{
    let mut i: usize = 0;
    while i < bytes.len()
        invariant
            i <= bytes.len(),
            out@ == old(out)@ + bytes@.take(i as int),
        decreases bytes.len() - i,
    {
        out.push(bytes[i]);
        proof {
            assert(bytes@.take(i as int).push(bytes@[i as int]) =~= bytes@.take(i as int + 1));
            assert((old(out)@ + bytes@.take(i as int)).push(bytes@[i as int]) =~= old(out)@
                + bytes@.take(i as int + 1));
        }
        i = i + 1;
    }
    proof {
        assert(bytes@.take(bytes@.len() as int) =~= bytes@);
    }
}

/// Appends the decimal digits of `n`.
pub(crate) fn push_u64(out: &mut Vec<u8>, n: u64)
    ensures
        final(out)@ == old(out)@ + enc_u64(n as nat),
    decreases n,
{
    if n < 10 {
        out.push(48 + (n as u8));
        proof {
            assert(old(out)@.push((48 + n as nat) as u8) =~= old(out)@ + enc_u64(n as nat));
        }
    } else {
        push_u64(out, n / 10);
        out.push(48 + ((n % 10) as u8));
        proof {
            assert((old(out)@ + enc_u64((n / 10) as nat)).push((48 + (n as nat) % 10) as u8)
                =~= old(out)@ + enc_u64(n as nat));
        }
    }
}

/// Appends the encoding of one entry.
fn push_entry(out: &mut Vec<u8>, e: &CacheEntry)
    ensures
        final(out)@ == old(out)@ + enc_entry(*e),
{
    out.push(34u8);
    push_u64(out, e.pid as u64);
    let tab_lit: &[u8] = &[34u8, 58u8, 123u8, 34u8, 116u8, 97u8, 98u8, 95u8, 105u8, 100u8, 120u8, 34u8, 58u8];
    proof {
        assert(tab_lit@ =~= lit_tab());
    }
    push_bytes(out, tab_lit);
    push_u64(out, e.layout.tab_idx as u64);
    let pane_lit: &[u8] = &[44u8, 34u8, 112u8, 97u8, 110u8, 101u8, 34u8, 58u8, 91u8];
    proof {
        assert(pane_lit@ =~= lit_pane());
    }
    push_bytes(out, pane_lit);
    push_u64(out, e.layout.pane_id as u64);
    out.push(44u8);
    if e.layout.pane_is_plugin {
        let t: &[u8] = &[116u8, 114u8, 117u8, 101u8];
        proof {
            assert(t@ =~= lit_true());
        }
        push_bytes(out, t);
    } else {
        let f: &[u8] = &[102u8, 97u8, 108u8, 115u8, 101u8];
        proof {
            assert(f@ =~= lit_false());
        }
        push_bytes(out, f);
    }
    let close: &[u8] = &[93u8, 125u8];
    proof {
        assert(close@ =~= lit_close());
    }
    push_bytes(out, close);
    proof {
        assert((e.pid as u64) as nat == e.pid as nat);
        assert((e.layout.tab_idx as u64) as nat == e.layout.tab_idx as nat);
        assert((e.layout.pane_id as u64) as nat == e.layout.pane_id as nat);
        assert(out@ =~= old(out)@ + enc_entry(*e));
    }
}

/// Writes the whole store as one byte document.
pub fn encode_cache(store: &CacheStore) -> (r: Vec<u8>)
    ensures
        r@ == enc_cache(store.entries@),
{
    let ghost s0 = store.entries@;
    let mut out: Vec<u8> = Vec::new();
    out.push(123u8);
    let mut k: usize = 0;
    proof {
        assert(s0.take(0) =~= Seq::<CacheEntry>::empty());
        assert(out@ =~= seq![123u8] + enc_entries(s0.take(0)));
    }
    while k < store.entries.len()
        invariant
            k <= store.entries.len(),
            store.entries@ == s0,
            out@ == seq![123u8] + enc_entries(s0.take(k as int)),
        decreases store.entries.len() - k,
    {
        let ghost pre = out@;
        if k > 0 {
            out.push(44u8);
        }
        push_entry(&mut out, &store.entries[k]);
        proof {
            lemma_enc_entries_snoc(s0.take(k as int), s0[k as int]);
            assert(s0.take(k as int).push(s0[k as int]) =~= s0.take(k as int + 1));
            if k > 0 {
                assert(out@ =~= pre + seq![44u8] + enc_entry(s0[k as int]));
                assert(out@ =~= seq![123u8] + enc_entries(s0.take(k as int + 1)));
            } else {
                assert(out@ =~= seq![123u8] + enc_entries(s0.take(k as int + 1)));
            }
        }
        k = k + 1;
    }
    out.push(125u8);
    proof {
        assert(s0.take(s0.len() as int) =~= s0);
        assert(out@ =~= enc_cache(s0));
    }
    out
}

/// The seam of a known concatenation: where `x` ends inside `s`, what lies
/// on each side.
proof fn lemma_skip_concat(s: Seq<u8>, i: int, x: Seq<u8>, y: Seq<u8>)
    requires
        0 <= i <= s.len(),
        s.skip(i) == x + y,
    ensures
        i + x.len() + y.len() == s.len(),
        s.skip(i + x.len()) == y,
        s.subrange(i, i + x.len()) == x,
{
    assert(s.skip(i).len() == s.len() - i);
    assert(s.skip(i + x.len()) =~= s.skip(i).skip(x.len() as int));
    assert((x + y).skip(x.len() as int) =~= y);
    assert(s.subrange(i, i + x.len()) =~= (x + y).take(x.len() as int));
    assert((x + y).take(x.len() as int) =~= x);
}

/// A decimal number stands at position `i` of `s`, followed by `rest`,
/// whose first byte (if any) is not a digit.
pub open spec fn num_at(s: Seq<u8>, i: int, n: u64, rest: Seq<u8>) -> bool {
    0 <= i <= s.len() && s.skip(i) == enc_u64(n as nat) + rest && (rest.len() == 0 || !is_digit(
        rest[0],
    ))
}

/// A truth word stands at position `i` of `s`, followed by `rest`.
pub open spec fn bool_at(s: Seq<u8>, i: int, v: bool, rest: Seq<u8>) -> bool {
    0 <= i <= s.len() && s.skip(i) == enc_bool(v) + rest
}

/// What a digit scan can see over an encoded number: the scan cannot pass
/// the number's end, the value read so far never exceeds the number, and at
/// the end the whole number has been read.
proof fn lemma_num_shape(s: Seq<u8>, i: int, n: u64, rest: Seq<u8>, j: int)
    requires
        num_at(s, i, n, rest),
        i <= j <= s.len(),
        forall|k: int| i <= k < j ==> is_digit(#[trigger] s[k]),
    ensures
        j <= i + enc_u64(n as nat).len(),
        dec_digits(s.subrange(i, j)) <= n,
        j < i + enc_u64(n as nat).len() ==> j < s.len() && is_digit(s[j]) && dec_digits(
            s.subrange(i, j + 1),
        ) == dec_digits(s.subrange(i, j)) * 10 + (s[j] - 48) && dec_digits(s.subrange(i, j + 1))
            <= n,
        j == i + enc_u64(n as nat).len() ==> dec_digits(s.subrange(i, j)) == n && (j == s.len()
            || !is_digit(s[j])),
{
    let enc = enc_u64(n as nat);
    let ll = enc.len() as int;
    lemma_enc_u64_props(n as nat);
    lemma_skip_concat(s, i, enc, rest);
    assert(forall|k: int| 0 <= k < ll ==> s[i + k] == #[trigger] enc[k]) by {
        assert(forall|k: int|
            0 <= k < ll ==> s.subrange(i, i + ll)[k] == #[trigger] enc[k]);
    }
    if j > i + ll {
        assert(is_digit(s[i + ll]));
        if rest.len() > 0 {
            assert(s[i + ll] == rest[0]);
            assert(false);
        } else {
            assert(s.len() == i + ll);
            assert(false);
        }
    }
    assert(s.subrange(i, j) =~= enc.take(j - i));
    lemma_dec_prefix_le(enc, j - i);
    if j < i + ll {
        assert(s[j] == enc[j - i]);
        assert(is_digit(s[j]));
        assert(s.subrange(i, j + 1).drop_last() =~= s.subrange(i, j));
        assert(s.subrange(i, j + 1).last() == s[j]);
        assert(s.subrange(i, j + 1) =~= enc.take(j - i + 1));
        lemma_dec_prefix_le(enc, j - i + 1);
    }
    if j == i + ll {
        assert(s.subrange(i, j) =~= enc);
        if rest.len() > 0 {
            assert(s[j] == rest[0]);
        }
    }
}

/// Whether the bytes at `i` begin with the given literal; `Some` holds the
/// position just past it, exactly when the literal stands there whole.
fn expect_lit(s: &[u8], i: usize, lit: &[u8]) -> (r: Option<usize>)
    ensures
        r matches Some(j) ==> j == i + lit@.len() && i + lit@.len() <= s@.len() && s@.subrange(
            i as int,
            i + lit@.len(),
        ) == lit@,
        (i + lit@.len() <= s@.len() && s@.subrange(i as int, i + lit@.len()) == lit@) ==> (
        r matches Some(j) && j == i + lit@.len()),
{
    if s.len() < lit.len() || i > s.len() - lit.len() {
        return None;
    }
    let mut j: usize = 0;
    while j < lit.len()
        invariant
            j <= lit.len(),
            i + lit@.len() <= s@.len(),
            forall|k: int| 0 <= k < j ==> s@[i + k] == lit@[k],
        decreases lit.len() - j,
    {
        let sl = s.len();
        proof {
            assert(i + j < sl);
        }
        let idx = i + j;
        if s[idx] != lit[j] {
            proof {
                if s@.subrange(i as int, i + lit@.len()) == lit@ {
                    assert(s@.subrange(i as int, i + lit@.len())[j as int] == s@[idx as int]);
                    assert(false);
                }
            }
            return None;
        }
        j = j + 1;
    }
    proof {
        assert(s@.subrange(i as int, i + lit@.len()) =~= lit@);
    }
    Some(i + lit.len())
}

/// Reads a decimal number at `i`: the longest run of digits, refused when
/// empty, zero-padded, or too large for a machine word.
fn parse_u64(s: &[u8], i: usize) -> (r: Option<(u64, usize)>)
    ensures
        r matches Some(p) ==> i < p.1 && p.1 <= s@.len() && s@.subrange(i as int, p.1 as int)
            == enc_u64(p.0 as nat) && (p.1 == s@.len() || !is_digit(s@[p.1 as int])),
        forall|n: u64, rest: Seq<u8>|
            #[trigger] num_at(s@, i as int, n, rest) ==> r == Some(
                (n, (i + enc_u64(n as nat).len()) as usize),
            ),
{
    let mut j: usize = i;
    let mut val: u64 = 0;
    if i >= s.len() {
        proof {
            assert forall|n: u64, rest: Seq<u8>| num_at(s@, i as int, n, rest) implies false by {
                lemma_enc_u64_props(n as nat);
                assert(s@.skip(i as int).len() == s@.len() - i);
            }
        }
        return None;
    }
    proof {
        assert(s@.subrange(i as int, i as int) =~= Seq::<u8>::empty());
    }
    while j < s.len() && 48 <= s[j] && s[j] <= 57
        invariant
            i <= j <= s@.len(),
            forall|k: int| i <= k < j ==> is_digit(#[trigger] s@[k]),
            val == dec_digits(s@.subrange(i as int, j as int)),
        decreases s.len() - j,
    {
        let d: u8 = s[j] - 48;
        let v10 = match val.checked_mul(10) {
            Some(v) => v,
            None => {
                proof {
                    assert forall|n: u64, rest: Seq<u8>|
                        num_at(s@, i as int, n, rest) implies false by {
                        lemma_num_shape(s@, i as int, n, rest, j as int);
                    }
                }
                return None;
            },
        };
        let v = match v10.checked_add(d as u64) {
            Some(v) => v,
            None => {
                proof {
                    assert forall|n: u64, rest: Seq<u8>|
                        num_at(s@, i as int, n, rest) implies false by {
                        lemma_num_shape(s@, i as int, n, rest, j as int);
                    }
                }
                return None;
            },
        };
        proof {
            assert(s@.subrange(i as int, j as int + 1).drop_last() =~= s@.subrange(
                i as int,
                j as int,
            ));
            assert(s@.subrange(i as int, j as int + 1).last() == s@[j as int]);
        }
        val = v;
        j = j + 1;
    }
    if j == i {
        proof {
            assert forall|n: u64, rest: Seq<u8>| num_at(s@, i as int, n, rest) implies false by {
                lemma_enc_u64_props(n as nat);
                lemma_skip_concat(s@, i as int, enc_u64(n as nat), rest);
                assert(s@.subrange(i as int, i + enc_u64(n as nat).len())[0] == s@[i as int]);
                assert(is_digit(s@[i as int]));
            }
        }
        return None;
    }
    if s[i] == 48 && j > i + 1 {
        proof {
            assert forall|n: u64, rest: Seq<u8>| num_at(s@, i as int, n, rest) implies false by {
                lemma_enc_u64_props(n as nat);
                lemma_num_shape(s@, i as int, n, rest, j as int);
                if (j as int) < i + enc_u64(n as nat).len() {
                    assert(is_digit(s@[j as int]));
                    assert(false);
                }
                assert(j == i + enc_u64(n as nat).len());
                lemma_skip_concat(s@, i as int, enc_u64(n as nat), rest);
                assert(s@.subrange(i as int, i + enc_u64(n as nat).len())[0] == s@[i as int]);
                assert(enc_u64(n as nat)[0] == 48);
                assert(enc_u64(n as nat).len() > 1);
                assert(false);
            }
        }
        return None;
    }
    proof {
        assert forall|n: u64, rest: Seq<u8>|
            num_at(s@, i as int, n, rest) implies Some((val, j)) == Some(
            (n, (i + enc_u64(n as nat).len()) as usize),
        ) by {
            lemma_num_shape(s@, i as int, n, rest, j as int);
            if (j as int) < i + enc_u64(n as nat).len() {
                assert(is_digit(s@[j as int]));
                assert(j < s@.len());
                assert(false);
            }
        }
        let d = s@.subrange(i as int, j as int);
        assert(d.len() >= 1);
        assert(forall|k: int| 0 <= k < d.len() ==> is_digit(#[trigger] d[k])) by {
            assert(forall|k: int| 0 <= k < d.len() ==> d[k] == #[trigger] s@[i + k]);
        }
        assert(d.len() > 1 ==> d[0] != 48) by {
            assert(d[0] == s@[i as int]);
        }
        lemma_digits_canonical(d);
        assert(s@.subrange(i as int, j as int) == enc_u64(val as nat));
    }
    Some((val, j))
}

/// Reads a truth word at `i`.
fn parse_bool(s: &[u8], i: usize) -> (r: Option<(bool, usize)>)
    ensures
        r matches Some(p) ==> i < p.1 && p.1 <= s@.len() && s@.subrange(i as int, p.1 as int)
            == enc_bool(p.0),
        forall|v: bool, rest: Seq<u8>|
            #[trigger] bool_at(s@, i as int, v, rest) ==> r == Some(
                (v, (i + enc_bool(v).len()) as usize),
            ),
{
    let t: &[u8] = &[116u8, 114u8, 117u8, 101u8];
    proof {
        assert(t@ =~= lit_true());
    }
    let rt = expect_lit(s, i, t);
    match rt {
        Some(j) => {
            proof {
                assert forall|v: bool, rest: Seq<u8>|
                    #[trigger] bool_at(s@, i as int, v, rest) implies Some(
                    (true, j),
                ) == Some((v, (i + enc_bool(v).len()) as usize)) by {
                    if !v {
                        lemma_skip_concat(s@, i as int, lit_false(), rest);
                        assert(s@.subrange(i as int, i + 5)[0] == s@[i as int]);
                        assert(s@[i as int] == 102u8);
                        assert(s@.subrange(i as int, i + 4)[0] == s@[i as int]);
                        assert(s@[i as int] == 116u8);
                        assert(false);
                    }
                }
            }
            return Some((true, j));
        },
        None => {},
    }
    let f: &[u8] = &[102u8, 97u8, 108u8, 115u8, 101u8];
    proof {
        assert(f@ =~= lit_false());
    }
    let rf = expect_lit(s, i, f);
    match rf {
        Some(j) => {
            proof {
                assert forall|v: bool, rest: Seq<u8>|
                    #[trigger] bool_at(s@, i as int, v, rest) implies Some(
                    (false, j),
                ) == Some((v, (i + enc_bool(v).len()) as usize)) by {
                    if v {
                        lemma_skip_concat(s@, i as int, lit_true(), rest);
                        assert(rt is None);
                        assert(false);
                    }
                }
            }
            return Some((false, j));
        },
        None => {},
    }
    proof {
        assert forall|v: bool, rest: Seq<u8>|
            #[trigger] bool_at(s@, i as int, v, rest) implies false by {
            if v {
                lemma_skip_concat(s@, i as int, lit_true(), rest);
            } else {
                lemma_skip_concat(s@, i as int, lit_false(), rest);
            }
        }
    }
    None
}

/// One store entry stands at position `i` of `s`, followed by `rest`.
pub open spec fn entry_at(s: Seq<u8>, i: int, e: CacheEntry, rest: Seq<u8>) -> bool {
    0 <= i <= s.len() && s.skip(i) == enc_entry(e) + rest
}

/// What follows an entry's client id.
pub open spec fn tail_pid(e: CacheEntry, rest: Seq<u8>) -> Seq<u8> {
    lit_tab() + (enc_u64(e.layout.tab_idx as nat) + (lit_pane() + (enc_u64(
        e.layout.pane_id as nat,
    ) + (seq![44u8] + (enc_bool(e.layout.pane_is_plugin) + (lit_close() + rest))))))
}

/// What follows an entry's tab index.
pub open spec fn tail_tab(e: CacheEntry, rest: Seq<u8>) -> Seq<u8> {
    lit_pane() + (enc_u64(e.layout.pane_id as nat) + (seq![44u8] + (enc_bool(
        e.layout.pane_is_plugin,
    ) + (lit_close() + rest))))
}

/// What follows an entry's pane id.
pub open spec fn tail_pane(e: CacheEntry, rest: Seq<u8>) -> Seq<u8> {
    seq![44u8] + (enc_bool(e.layout.pane_is_plugin) + (lit_close() + rest))
}

/// Where each field of an encoded entry stands: the seams of its encoding.
proof fn lemma_entry_shape(s: Seq<u8>, i: int, e: CacheEntry, rest: Seq<u8>)
    requires
        entry_at(s, i, e, rest),
    ensures
        i + enc_entry(e).len() <= s.len(),
        enc_entry(e).len() == 1 + enc_u64(e.pid as nat).len() + 13 + enc_u64(
            e.layout.tab_idx as nat,
        ).len() + 9 + enc_u64(e.layout.pane_id as nat).len() + 1 + enc_bool(
            e.layout.pane_is_plugin,
        ).len() + 2,
        s.subrange(i, i + 1) == seq![34u8],
        num_at(s, i + 1, e.pid as u64, tail_pid(e, rest)),
        s.subrange(
            i + 1 + enc_u64(e.pid as nat).len(),
            i + 1 + enc_u64(e.pid as nat).len() + 13,
        ) == lit_tab(),
        num_at(
            s,
            i + 1 + enc_u64(e.pid as nat).len() + 13,
            e.layout.tab_idx as u64,
            tail_tab(e, rest),
        ),
        s.subrange(
            i + 1 + enc_u64(e.pid as nat).len() + 13 + enc_u64(e.layout.tab_idx as nat).len(),
            i + 1 + enc_u64(e.pid as nat).len() + 13 + enc_u64(e.layout.tab_idx as nat).len() + 9,
        ) == lit_pane(),
        num_at(
            s,
            i + 1 + enc_u64(e.pid as nat).len() + 13 + enc_u64(e.layout.tab_idx as nat).len() + 9,
            e.layout.pane_id as u64,
            tail_pane(e, rest),
        ),
        s.subrange(
            i + 1 + enc_u64(e.pid as nat).len() + 13 + enc_u64(e.layout.tab_idx as nat).len() + 9
                + enc_u64(e.layout.pane_id as nat).len(),
            i + 1 + enc_u64(e.pid as nat).len() + 13 + enc_u64(e.layout.tab_idx as nat).len() + 9
                + enc_u64(e.layout.pane_id as nat).len() + 1,
        ) == seq![44u8],
        bool_at(
            s,
            i + 1 + enc_u64(e.pid as nat).len() + 13 + enc_u64(e.layout.tab_idx as nat).len() + 9
                + enc_u64(e.layout.pane_id as nat).len() + 1,
            e.layout.pane_is_plugin,
            lit_close() + rest,
        ),
        s.subrange(
            i + 1 + enc_u64(e.pid as nat).len() + 13 + enc_u64(e.layout.tab_idx as nat).len() + 9
                + enc_u64(e.layout.pane_id as nat).len() + 1 + enc_bool(
                e.layout.pane_is_plugin,
            ).len(),
            i + 1 + enc_u64(e.pid as nat).len() + 13 + enc_u64(e.layout.tab_idx as nat).len() + 9
                + enc_u64(e.layout.pane_id as nat).len() + 1 + enc_bool(
                e.layout.pane_is_plugin,
            ).len() + 2,
        ) == lit_close(),
{
    let a1 = seq![34u8];
    let a2 = enc_u64(e.pid as nat);
    let a3 = lit_tab();
    let a4 = enc_u64(e.layout.tab_idx as nat);
    let a5 = lit_pane();
    let a6 = enc_u64(e.layout.pane_id as nat);
    let a7 = seq![44u8];
    let a8 = enc_bool(e.layout.pane_is_plugin);
    let a9 = lit_close();
    let t9 = a9 + rest;
    let t8 = a8 + t9;
    let t7 = a7 + t8;
    let t6 = a6 + t7;
    let t5 = a5 + t6;
    let t4 = a4 + t5;
    let t3 = a3 + t4;
    let t2 = a2 + t3;
    let p8 = a1 + a2 + a3 + a4 + a5 + a6 + a7 + a8;
    assert(enc_entry(e) + rest =~= p8 + t9);
    assert(p8 + t9 =~= (a1 + a2 + a3 + a4 + a5 + a6 + a7) + t8);
    assert((a1 + a2 + a3 + a4 + a5 + a6 + a7) + t8 =~= (a1 + a2 + a3 + a4 + a5 + a6) + t7);
    assert((a1 + a2 + a3 + a4 + a5 + a6) + t7 =~= (a1 + a2 + a3 + a4 + a5) + t6);
    assert((a1 + a2 + a3 + a4 + a5) + t6 =~= (a1 + a2 + a3 + a4) + t5);
    assert((a1 + a2 + a3 + a4) + t5 =~= (a1 + a2 + a3) + t4);
    assert((a1 + a2 + a3) + t4 =~= (a1 + a2) + t3);
    assert((a1 + a2) + t3 =~= a1 + t2);
    assert(s.skip(i) == a1 + t2);
    lemma_skip_concat(s, i, a1, t2);
    lemma_skip_concat(s, i + 1, a2, t3);
    lemma_skip_concat(s, i + 1 + a2.len(), a3, t4);
    lemma_skip_concat(s, i + 1 + a2.len() + 13, a4, t5);
    lemma_skip_concat(s, i + 1 + a2.len() + 13 + a4.len(), a5, t6);
    lemma_skip_concat(s, i + 1 + a2.len() + 13 + a4.len() + 9, a6, t7);
    lemma_skip_concat(s, i + 1 + a2.len() + 13 + a4.len() + 9 + a6.len(), a7, t8);
    lemma_skip_concat(s, i + 1 + a2.len() + 13 + a4.len() + 9 + a6.len() + 1, a8, t9);
    lemma_skip_concat(
        s,
        i + 1 + a2.len() + 13 + a4.len() + 9 + a6.len() + 1 + a8.len(),
        a9,
        rest,
    );
    assert((e.pid as u64) as nat == e.pid as nat);
    assert((e.layout.tab_idx as u64) as nat == e.layout.tab_idx as nat);
    assert((e.layout.pane_id as u64) as nat == e.layout.pane_id as nat);
    assert(t3[0] == 34u8);
    assert(t5[0] == 44u8);
    assert(t7[0] == 44u8);
}

/// Reads one entry at position `i`.
#[verifier::rlimit(100)]
fn parse_entry(s: &[u8], i: usize) -> (r: Option<(CacheEntry, usize)>)
    ensures
        r matches Some(p) ==> i < p.1 && p.1 <= s@.len() && s@.subrange(i as int, p.1 as int)
            == enc_entry(p.0),
        forall|e: CacheEntry, rest: Seq<u8>|
            #[trigger] entry_at(s@, i as int, e, rest) ==> r == Some(
                (e, (i + enc_entry(e).len()) as usize),
            ),
{
    let sl = s.len();
    let q: &[u8] = &[34u8];
    proof {
        assert(q@ =~= seq![34u8]);
    }
    let j0 = match expect_lit(s, i, q) {
        Some(j) => j,
        None => {
            proof {
                assert forall|e: CacheEntry, rest: Seq<u8>|
                    entry_at(s@, i as int, e, rest) implies false by {
                    lemma_entry_shape(s@, i as int, e, rest);
                    assert((e.pid as u64) as nat == e.pid as nat);
                    assert((e.layout.tab_idx as u64) as nat == e.layout.tab_idx as nat);
                    assert((e.layout.pane_id as u64) as nat == e.layout.pane_id as nat);
                    assert(i + q@.len() <= s@.len());
                    assert(s@.subrange(i as int, i + q@.len()) == q@);
                }
            }
            return None;
        },
    };
    let (pv, j1) = match parse_u64(s, j0) {
        Some(p) => p,
        None => {
            proof {
                assert forall|e: CacheEntry, rest: Seq<u8>|
                    entry_at(s@, i as int, e, rest) implies false by {
                    lemma_entry_shape(s@, i as int, e, rest);
                    assert((e.pid as u64) as nat == e.pid as nat);
                    assert((e.layout.tab_idx as u64) as nat == e.layout.tab_idx as nat);
                    assert((e.layout.pane_id as u64) as nat == e.layout.pane_id as nat);
                    assert(i + q@.len() <= s@.len());
                    assert(s@.subrange(i as int, i + q@.len()) == q@);
                    assert(j0 == i + 1);
                    assert(num_at(s@, j0 as int, e.pid as u64, tail_pid(e, rest)));
                }
            }
            return None;
        },
    };
    proof {
        assert forall|e: CacheEntry, rest: Seq<u8>|
            entry_at(s@, i as int, e, rest) implies j0 == i + 1 && pv == e.pid as u64 && j1
            == i + 1 + enc_u64(e.pid as nat).len() by {
            lemma_entry_shape(s@, i as int, e, rest);
            assert((e.pid as u64) as nat == e.pid as nat);
            assert((e.layout.tab_idx as u64) as nat == e.layout.tab_idx as nat);
            assert((e.layout.pane_id as u64) as nat == e.layout.pane_id as nat);
            assert(i + q@.len() <= s@.len());
            assert(s@.subrange(i as int, i + q@.len()) == q@);
            assert(j0 == i + 1);
            assert(num_at(s@, j0 as int, e.pid as u64, tail_pid(e, rest)));
        }
    }
    if pv > 4294967295u64 {
        proof {
            assert forall|e: CacheEntry, rest: Seq<u8>|
                entry_at(s@, i as int, e, rest) implies false by {
                lemma_entry_shape(s@, i as int, e, rest);
            }
        }
        return None;
    }
    let tab_lit: &[u8] = &[34u8, 58u8, 123u8, 34u8, 116u8, 97u8, 98u8, 95u8, 105u8, 100u8, 120u8, 34u8, 58u8];
    proof {
        assert(tab_lit@ =~= lit_tab());
    }
    let j2 = match expect_lit(s, j1, tab_lit) {
        Some(j) => j,
        None => {
            proof {
                assert forall|e: CacheEntry, rest: Seq<u8>|
                    entry_at(s@, i as int, e, rest) implies false by {
                    lemma_entry_shape(s@, i as int, e, rest);
                    assert((e.pid as u64) as nat == e.pid as nat);
                    assert((e.layout.tab_idx as u64) as nat == e.layout.tab_idx as nat);
                    assert((e.layout.pane_id as u64) as nat == e.layout.pane_id as nat);
                    assert(j1 == i + 1 + enc_u64(e.pid as nat).len());
                    assert(j1 + tab_lit@.len() <= s@.len());
                    assert(s@.subrange(j1 as int, j1 + tab_lit@.len()) == tab_lit@);
                }
            }
            return None;
        },
    };
    let (tv, j3) = match parse_u64(s, j2) {
        Some(p) => p,
        None => {
            proof {
                assert forall|e: CacheEntry, rest: Seq<u8>|
                    entry_at(s@, i as int, e, rest) implies false by {
                    lemma_entry_shape(s@, i as int, e, rest);
                    assert((e.pid as u64) as nat == e.pid as nat);
                    assert((e.layout.tab_idx as u64) as nat == e.layout.tab_idx as nat);
                    assert((e.layout.pane_id as u64) as nat == e.layout.pane_id as nat);
                    assert(j1 == i + 1 + enc_u64(e.pid as nat).len());
                    assert(j1 + tab_lit@.len() <= s@.len());
                    assert(s@.subrange(j1 as int, j1 + tab_lit@.len()) == tab_lit@);
                    assert(j2 == j1 + 13);
                    assert(num_at(s@, j2 as int, e.layout.tab_idx as u64, tail_tab(e, rest)));
                }
            }
            return None;
        },
    };
    proof {
        assert forall|e: CacheEntry, rest: Seq<u8>|
            entry_at(s@, i as int, e, rest) implies j2 == j1 + 13 && tv
            == e.layout.tab_idx as u64 && j3 == j2 + enc_u64(e.layout.tab_idx as nat).len() by {
            lemma_entry_shape(s@, i as int, e, rest);
            assert((e.pid as u64) as nat == e.pid as nat);
            assert((e.layout.tab_idx as u64) as nat == e.layout.tab_idx as nat);
            assert((e.layout.pane_id as u64) as nat == e.layout.pane_id as nat);
            assert(j1 == i + 1 + enc_u64(e.pid as nat).len());
            assert(j1 + tab_lit@.len() <= s@.len());
            assert(s@.subrange(j1 as int, j1 + tab_lit@.len()) == tab_lit@);
            assert(j2 == j1 + 13);
            assert(num_at(s@, j2 as int, e.layout.tab_idx as u64, tail_tab(e, rest)));
        }
    }
    if tv > (usize::MAX as u64) {
        proof {
            assert forall|e: CacheEntry, rest: Seq<u8>|
                entry_at(s@, i as int, e, rest) implies false by {
                lemma_entry_shape(s@, i as int, e, rest);
            }
        }
        return None;
    }
    let pane_lit: &[u8] = &[44u8, 34u8, 112u8, 97u8, 110u8, 101u8, 34u8, 58u8, 91u8];
    proof {
        assert(pane_lit@ =~= lit_pane());
    }
    let j4 = match expect_lit(s, j3, pane_lit) {
        Some(j) => j,
        None => {
            proof {
                assert forall|e: CacheEntry, rest: Seq<u8>|
                    entry_at(s@, i as int, e, rest) implies false by {
                    lemma_entry_shape(s@, i as int, e, rest);
                    assert((e.pid as u64) as nat == e.pid as nat);
                    assert((e.layout.tab_idx as u64) as nat == e.layout.tab_idx as nat);
                    assert((e.layout.pane_id as u64) as nat == e.layout.pane_id as nat);
                    assert(j3 == i + 1 + enc_u64(e.pid as nat).len() + 13 + enc_u64(
                        e.layout.tab_idx as nat,
                    ).len());
                    assert(j3 + pane_lit@.len() <= s@.len());
                    assert(s@.subrange(j3 as int, j3 + pane_lit@.len()) == pane_lit@);
                }
            }
            return None;
        },
    };
    let (nv, j5) = match parse_u64(s, j4) {
        Some(p) => p,
        None => {
            proof {
                assert forall|e: CacheEntry, rest: Seq<u8>|
                    entry_at(s@, i as int, e, rest) implies false by {
                    lemma_entry_shape(s@, i as int, e, rest);
                    assert((e.pid as u64) as nat == e.pid as nat);
                    assert((e.layout.tab_idx as u64) as nat == e.layout.tab_idx as nat);
                    assert((e.layout.pane_id as u64) as nat == e.layout.pane_id as nat);
                    assert(j3 == i + 1 + enc_u64(e.pid as nat).len() + 13 + enc_u64(
                        e.layout.tab_idx as nat,
                    ).len());
                    assert(j3 + pane_lit@.len() <= s@.len());
                    assert(s@.subrange(j3 as int, j3 + pane_lit@.len()) == pane_lit@);
                    assert(j4 == j3 + 9);
                    assert(num_at(s@, j4 as int, e.layout.pane_id as u64, tail_pane(e, rest)));
                }
            }
            return None;
        },
    };
    proof {
        assert forall|e: CacheEntry, rest: Seq<u8>|
            entry_at(s@, i as int, e, rest) implies j4 == j3 + 9 && nv
            == e.layout.pane_id as u64 && j5 == j4 + enc_u64(e.layout.pane_id as nat).len() by {
            lemma_entry_shape(s@, i as int, e, rest);
            assert((e.pid as u64) as nat == e.pid as nat);
            assert((e.layout.tab_idx as u64) as nat == e.layout.tab_idx as nat);
            assert((e.layout.pane_id as u64) as nat == e.layout.pane_id as nat);
            assert(j3 == i + 1 + enc_u64(e.pid as nat).len() + 13 + enc_u64(
                e.layout.tab_idx as nat,
            ).len());
            assert(j3 + pane_lit@.len() <= s@.len());
            assert(s@.subrange(j3 as int, j3 + pane_lit@.len()) == pane_lit@);
            assert(j4 == j3 + 9);
            assert(num_at(s@, j4 as int, e.layout.pane_id as u64, tail_pane(e, rest)));
        }
    }
    if nv > 4294967295u64 {
        proof {
            assert forall|e: CacheEntry, rest: Seq<u8>|
                entry_at(s@, i as int, e, rest) implies false by {
                lemma_entry_shape(s@, i as int, e, rest);
            }
        }
        return None;
    }
    let comma: &[u8] = &[44u8];
    proof {
        assert(comma@ =~= seq![44u8]);
    }
    let j6 = match expect_lit(s, j5, comma) {
        Some(j) => j,
        None => {
            proof {
                assert forall|e: CacheEntry, rest: Seq<u8>|
                    entry_at(s@, i as int, e, rest) implies false by {
                    lemma_entry_shape(s@, i as int, e, rest);
                    assert((e.pid as u64) as nat == e.pid as nat);
                    assert((e.layout.tab_idx as u64) as nat == e.layout.tab_idx as nat);
                    assert((e.layout.pane_id as u64) as nat == e.layout.pane_id as nat);
                    assert(j5 == i + 1 + enc_u64(e.pid as nat).len() + 13 + enc_u64(
                        e.layout.tab_idx as nat,
                    ).len() + 9 + enc_u64(e.layout.pane_id as nat).len());
                    assert(j5 + comma@.len() <= s@.len());
                    assert(s@.subrange(j5 as int, j5 + comma@.len()) == comma@);
                }
            }
            return None;
        },
    };
    let (bv, j7) = match parse_bool(s, j6) {
        Some(p) => p,
        None => {
            proof {
                assert forall|e: CacheEntry, rest: Seq<u8>|
                    entry_at(s@, i as int, e, rest) implies false by {
                    lemma_entry_shape(s@, i as int, e, rest);
                    assert((e.pid as u64) as nat == e.pid as nat);
                    assert((e.layout.tab_idx as u64) as nat == e.layout.tab_idx as nat);
                    assert((e.layout.pane_id as u64) as nat == e.layout.pane_id as nat);
                    assert(j5 == i + 1 + enc_u64(e.pid as nat).len() + 13 + enc_u64(
                        e.layout.tab_idx as nat,
                    ).len() + 9 + enc_u64(e.layout.pane_id as nat).len());
                    assert(j5 + comma@.len() <= s@.len());
                    assert(s@.subrange(j5 as int, j5 + comma@.len()) == comma@);
                    assert(j6 == j5 + 1);
                    assert(bool_at(s@, j6 as int, e.layout.pane_is_plugin, lit_close() + rest));
                }
            }
            return None;
        },
    };
    proof {
        assert forall|e: CacheEntry, rest: Seq<u8>|
            entry_at(s@, i as int, e, rest) implies j6 == j5 + 1 && bv
            == e.layout.pane_is_plugin && j7 == j6 + enc_bool(e.layout.pane_is_plugin).len() by {
            lemma_entry_shape(s@, i as int, e, rest);
            assert((e.pid as u64) as nat == e.pid as nat);
            assert((e.layout.tab_idx as u64) as nat == e.layout.tab_idx as nat);
            assert((e.layout.pane_id as u64) as nat == e.layout.pane_id as nat);
            assert(j5 == i + 1 + enc_u64(e.pid as nat).len() + 13 + enc_u64(
                e.layout.tab_idx as nat,
            ).len() + 9 + enc_u64(e.layout.pane_id as nat).len());
            assert(j5 + comma@.len() <= s@.len());
            assert(s@.subrange(j5 as int, j5 + comma@.len()) == comma@);
            assert(j6 == j5 + 1);
            assert(bool_at(s@, j6 as int, e.layout.pane_is_plugin, lit_close() + rest));
        }
    }
    let close: &[u8] = &[93u8, 125u8];
    proof {
        assert(close@ =~= lit_close());
    }
    let j8 = match expect_lit(s, j7, close) {
        Some(j) => j,
        None => {
            proof {
                assert forall|e: CacheEntry, rest: Seq<u8>|
                    entry_at(s@, i as int, e, rest) implies false by {
                    lemma_entry_shape(s@, i as int, e, rest);
                    assert((e.pid as u64) as nat == e.pid as nat);
                    assert((e.layout.tab_idx as u64) as nat == e.layout.tab_idx as nat);
                    assert((e.layout.pane_id as u64) as nat == e.layout.pane_id as nat);
                    assert(j7 == i + 1 + enc_u64(e.pid as nat).len() + 13 + enc_u64(
                        e.layout.tab_idx as nat,
                    ).len() + 9 + enc_u64(e.layout.pane_id as nat).len() + 1 + enc_bool(
                        e.layout.pane_is_plugin,
                    ).len());
                    assert(j7 + close@.len() <= s@.len());
                    assert(s@.subrange(j7 as int, j7 + close@.len()) == close@);
                }
            }
            return None;
        },
    };
    let entry = CacheEntry {
        pid: pv as u32,
        layout: ClientLayout {
            tab_idx: tv as usize,
            pane_id: nv as u32,
            pane_is_plugin: bv,
        },
    };
    proof {
        assert((entry.pid as u64) as nat == pv as nat && entry.pid as nat == pv as nat);
        assert(entry.layout.tab_idx as nat == tv as nat);
        assert(entry.layout.pane_id as nat == nv as nat);
        lemma_subrange_glue(s@, i as int, j0 as int, j1 as int);
        lemma_subrange_glue(s@, i as int, j1 as int, j2 as int);
        lemma_subrange_glue(s@, i as int, j2 as int, j3 as int);
        lemma_subrange_glue(s@, i as int, j3 as int, j4 as int);
        lemma_subrange_glue(s@, i as int, j4 as int, j5 as int);
        lemma_subrange_glue(s@, i as int, j5 as int, j6 as int);
        lemma_subrange_glue(s@, i as int, j6 as int, j7 as int);
        lemma_subrange_glue(s@, i as int, j7 as int, j8 as int);
        assert(s@.subrange(i as int, j8 as int) =~= enc_entry(entry));
        assert forall|e: CacheEntry, rest: Seq<u8>|
            entry_at(s@, i as int, e, rest) implies Some((entry, j8)) == Some(
            (e, (i + enc_entry(e).len()) as usize),
        ) by {
            lemma_entry_shape(s@, i as int, e, rest);
            assert((e.pid as u64) as nat == e.pid as nat);
            assert((e.layout.tab_idx as u64) as nat == e.layout.tab_idx as nat);
            assert((e.layout.pane_id as u64) as nat == e.layout.pane_id as nat);
            assert(j7 == i + 1 + enc_u64(e.pid as nat).len() + 13 + enc_u64(
                e.layout.tab_idx as nat,
            ).len() + 9 + enc_u64(e.layout.pane_id as nat).len() + 1 + enc_bool(
                e.layout.pane_is_plugin,
            ).len());
            assert(j7 + close@.len() <= s@.len());
            assert(s@.subrange(j7 as int, j7 + close@.len()) == close@);
            assert(j8 == j7 + 2);
            assert(pv == e.pid as u64);
            assert(tv == e.layout.tab_idx as u64);
            assert(nv == e.layout.pane_id as u64);
            assert(bv == e.layout.pane_is_plugin);
            assert(entry == e);
            assert(j8 == i + enc_entry(e).len());
        }
    }
    Some((entry, j8))
}

/// Appending an entry with a fresh id keeps the ids unique.
proof fn lemma_unique_push(s: Seq<CacheEntry>, e: CacheEntry)
    requires
        unique_pids(s),
        !has_pid(s, e.pid),
    ensures
        unique_pids(s.push(e)),
{
    assert forall|i: int, j: int| 0 <= i < j < s.push(e).len() implies (#[trigger] s.push(e)[i].pid)
        != (#[trigger] s.push(e)[j].pid) by {
        if j == s.len() {
            assert(s.push(e)[i] == s[i]);
            assert(s.push(e)[j] == e);
            if s[i].pid == e.pid {
                assert(has_pid(s, e.pid));
            }
        } else {
            assert(s.push(e)[i] == s[i]);
            assert(s.push(e)[j] == s[j]);
        }
    }
}

/// Whether the list already holds an entry for this id.
fn contains_pid(entries: &Vec<CacheEntry>, pid: u32) -> (r: bool)
    ensures
        r == has_pid(entries@, pid),
{
    let mut k: usize = 0;
    while k < entries.len()
        invariant
            k <= entries@.len(),
            forall|j: int| 0 <= j < k ==> (#[trigger] entries@[j].pid) != pid,
        decreases entries@.len() - k,
    {
        if entries[k].pid == pid {
            assert(has_pid(entries@, pid));
            return true;
        }
        k = k + 1;
    }
    assert(!has_pid(entries@, pid));
    false
}

/// Reads a whole store document: the brace-wrapped, comma-separated entry
/// list, with nothing after it; anything else is refused.
#[verifier::rlimit(100)]
pub fn parse_cache(s: &[u8]) -> (r: Option<CacheStore>)
    ensures
        forall|m: Seq<CacheEntry>|
            s@ == enc_cache(m) && unique_pids(m) ==> (r matches Some(st) && st.entries@ == m),
        r matches Some(st) ==> s@ == enc_cache(st.entries@) && unique_pids(st.entries@),
{
    let ob: &[u8] = &[123u8];
    proof {
        assert(ob@ =~= seq![123u8]);
    }
    let i0 = match expect_lit(s, 0, ob) {
        Some(j) => j,
        None => {
            proof {
                assert forall|m: Seq<CacheEntry>|
                    s@ == enc_cache(m) && unique_pids(m) implies false by {
                    assert(s@.skip(0) =~= s@);
                    assert(s@.skip(0) == seq![123u8] + (enc_entries(m) + seq![125u8]));
                    lemma_skip_concat(s@, 0, seq![123u8], enc_entries(m) + seq![125u8]);
                    assert(s@.subrange(0, 1) == seq![123u8]);
                }
            }
            return None;
        },
    };
    proof {
        assert forall|m: Seq<CacheEntry>|
            s@ == enc_cache(m) implies s@.skip(1) == enc_entries(m) + seq![125u8] && s@.len()
            >= 2 by {
            assert(s@.skip(0) =~= s@);
            assert(s@.skip(0) == seq![123u8] + (enc_entries(m) + seq![125u8]));
            lemma_skip_concat(s@, 0, seq![123u8], enc_entries(m) + seq![125u8]);
        }
    }
    if i0 < s.len() && s[i0] == 125u8 {
        if i0 + 1 == s.len() {
            proof {
                assert forall|m: Seq<CacheEntry>|
                    s@ == enc_cache(m) && unique_pids(m) implies m == Seq::<CacheEntry>::empty()
                    by {
                    if m.len() > 0 {
                        assert(s@.skip(1) == (enc_entry(m[0]) + enc_rest(m.skip(1))) + seq![
                            125u8,
                        ]);
                        assert((enc_entry(m[0]) + enc_rest(m.skip(1))) + seq![125u8]
                            =~= enc_entry(m[0]) + (enc_rest(m.skip(1)) + seq![125u8]));
                        lemma_entry_shape(s@, 1, m[0], enc_rest(m.skip(1)) + seq![125u8]);
                        assert(s@.subrange(1int, 2int)[0] == s@[1int]);
                        assert(s@[1int] == 34u8);
                        assert(false);
                    }
                    assert(m =~= Seq::<CacheEntry>::empty());
                }
                assert(s@ =~= enc_cache(Seq::<CacheEntry>::empty())) by {
                    assert(s@.subrange(0, 1)[0] == s@[0]);
                    assert(s@[0] == 123u8);
                    assert(enc_cache(Seq::<CacheEntry>::empty()) =~= seq![123u8, 125u8]);
                }
            }
            return Some(CacheStore { entries: Vec::new() });
        } else {
            proof {
                assert forall|m: Seq<CacheEntry>|
                    s@ == enc_cache(m) && unique_pids(m) implies false by {
                    if m.len() == 0 {
                        assert(s@.skip(1) =~= seq![125u8]);
                        assert(s@.len() == 2);
                    } else {
                        assert(s@.skip(1) == (enc_entry(m[0]) + enc_rest(m.skip(1))) + seq![
                            125u8,
                        ]);
                        assert((enc_entry(m[0]) + enc_rest(m.skip(1))) + seq![125u8]
                            =~= enc_entry(m[0]) + (enc_rest(m.skip(1)) + seq![125u8]));
                        lemma_entry_shape(s@, 1, m[0], enc_rest(m.skip(1)) + seq![125u8]);
                        assert(s@.subrange(1int, 2int)[0] == s@[1int]);
                        assert(s@[1int] == 34u8);
                    }
                }
            }
            return None;
        }
    }
    proof {
        assert forall|m: Seq<CacheEntry>|
            s@ == enc_cache(m) implies m.len() > 0 && s@.skip(1) == enc_entry(m[0]) + (enc_rest(
            m.skip(1),
        ) + seq![125u8]) by {
            if m.len() == 0 {
                assert(s@.skip(1) =~= seq![125u8]);
                assert(s@[1int] == 125u8);
            } else {
                assert(s@.skip(1) == (enc_entry(m[0]) + enc_rest(m.skip(1))) + seq![125u8]);
                assert((enc_entry(m[0]) + enc_rest(m.skip(1))) + seq![125u8] =~= enc_entry(
                    m[0],
                ) + (enc_rest(m.skip(1)) + seq![125u8]));
            }
        }
    }
    let mut entries: Vec<CacheEntry> = Vec::new();
    let mut i: usize = i0;
    proof {
        assert(s@.subrange(0, 1) + Seq::<u8>::empty() =~= s@.subrange(0, 1));
        assert(s@.subrange(0, i as int) =~= seq![123u8] + enc_entries(entries@)
            + Seq::<u8>::empty());
    }
    loop
        invariant
            1 <= i <= s@.len(),
            unique_pids(entries@),
            s@.subrange(0, i as int) == seq![123u8] + enc_entries(entries@) + (if entries@.len()
                > 0 {
                seq![44u8]
            } else {
                Seq::<u8>::empty()
            }),
            forall|m: Seq<CacheEntry>|
                s@ == enc_cache(m) ==> (entries@.len() < m.len() && entries@ == m.take(
                    entries@.len() as int,
                ) && s@.skip(i as int) == enc_entry(m[entries@.len() as int]) + (enc_rest(
                    m.skip(entries@.len() as int + 1),
                ) + seq![125u8])),
        decreases s@.len() - i,
    {
        let ghost k = entries@.len() as int;
        let (e, j) = match parse_entry(s, i) {
            Some(p) => p,
            None => {
                proof {
                    assert forall|m: Seq<CacheEntry>|
                        s@ == enc_cache(m) && unique_pids(m) implies false by {
                        assert(entry_at(
                            s@,
                            i as int,
                            m[k],
                            enc_rest(m.skip(k + 1)) + seq![125u8],
                        ));
                    }
                }
                return None;
            },
        };
        proof {
            assert forall|m: Seq<CacheEntry>|
                s@ == enc_cache(m) implies e == m[k] && j == i + enc_entry(m[k]).len()
                && s@.skip(j as int) == enc_rest(m.skip(k + 1)) + seq![125u8] by {
                assert(entry_at(s@, i as int, m[k], enc_rest(m.skip(k + 1)) + seq![125u8]));
                lemma_skip_concat(
                    s@,
                    i as int,
                    enc_entry(m[k]),
                    enc_rest(m.skip(k + 1)) + seq![125u8],
                );
            }
        }
        if contains_pid(&entries, e.pid) {
            proof {
                assert forall|m: Seq<CacheEntry>|
                    s@ == enc_cache(m) && unique_pids(m) implies false by {
                    let w = choose|w: int| 0 <= w < entries@.len() && (#[trigger] entries@[w].pid)
                        == e.pid;
                    assert(entries@[w] == m.take(k)[w]);
                    assert(m.take(k)[w] == m[w]);
                    assert(m[w].pid == m[k].pid);
                }
            }
            return None;
        }
        let ghost pre_entries = entries@;
        proof {
            lemma_unique_push(entries@, e);
        }
        entries.push(e);
        proof {
            assert forall|m: Seq<CacheEntry>|
                s@ == enc_cache(m) implies entries@ == m.take(entries@.len() as int) by {
                assert(m.take(k).push(m[k]) =~= m.take(k + 1));
            }
        }
        if j >= s.len() {
            proof {
                assert forall|m: Seq<CacheEntry>|
                    s@ == enc_cache(m) && unique_pids(m) implies false by {
                    assert(s@.skip(j as int).len() >= 1);
                }
            }
            return None;
        }
        let b = s[j];
        proof {
            lemma_subrange_glue(s@, 0, i as int, j as int);
            lemma_enc_entries_snoc(pre_entries, e);
            assert(pre_entries.push(e) =~= entries@);
            assert(enc_entries(entries@) == enc_entries(pre_entries.push(e)));
            if pre_entries.len() == 0 {
                assert(enc_entries(pre_entries) =~= Seq::<u8>::empty());
                assert(s@.subrange(0, j as int) =~= seq![123u8] + enc_entries(entries@));
            } else {
                assert(s@.subrange(0, j as int) =~= seq![123u8] + enc_entries(entries@));
            }
        }
        if b == 44u8 {
            proof {
                lemma_subrange_glue(s@, 0, j as int, j as int + 1);
                assert(s@.subrange(j as int, j as int + 1) =~= seq![44u8]);
                assert(s@.subrange(0, j as int + 1) =~= seq![123u8] + enc_entries(entries@)
                    + seq![44u8]);
                assert forall|m: Seq<CacheEntry>|
                    s@ == enc_cache(m) implies entries@.len() < m.len() && s@.skip(j as int + 1)
                    == enc_entry(m[entries@.len() as int]) + (enc_rest(
                    m.skip(entries@.len() as int + 1),
                ) + seq![125u8]) by {
                    if k + 1 == m.len() {
                        assert(enc_rest(m.skip(k + 1)) =~= Seq::<u8>::empty());
                        assert(enc_rest(m.skip(k + 1)) + seq![125u8] =~= seq![125u8]);
                        assert(s@.skip(j as int)[0] == s@[j as int]);
                        assert(s@[j as int] == 125u8);
                        assert(false);
                    } else {
                        assert(m.skip(k + 1)[0] == m[k + 1]);
                        assert(m.skip(k + 1).skip(1) =~= m.skip(k + 2));
                        assert(enc_rest(m.skip(k + 1)) == seq![44u8] + enc_entry(
                            m.skip(k + 1)[0],
                        ) + enc_rest(m.skip(k + 1).skip(1)));
                        assert(s@.skip(j as int) == (seq![44u8] + enc_entry(m[k + 1]) + enc_rest(
                            m.skip(k + 2),
                        )) + seq![125u8]);
                        assert(s@.skip(j as int).skip(1) =~= s@.skip(j as int + 1));
                        assert(((seq![44u8] + enc_entry(m[k + 1]) + enc_rest(m.skip(k + 2)))
                            + seq![125u8]).skip(1) =~= enc_entry(m[k + 1]) + (enc_rest(
                            m.skip(k + 2),
                        ) + seq![125u8]));
                    }
                }
            }
            i = j + 1;
        } else if b == 125u8 {
            if j + 1 == s.len() {
                proof {
                    lemma_subrange_glue(s@, 0, j as int, j as int + 1);
                    assert(s@.subrange(j as int, j as int + 1) =~= seq![125u8]);
                    assert(s@ =~= s@.subrange(0, j as int + 1));
                    assert(s@ =~= seq![123u8] + enc_entries(entries@) + seq![125u8]);
                    assert(s@ == enc_cache(entries@));
                    assert forall|m: Seq<CacheEntry>|
                        s@ == enc_cache(m) && unique_pids(m) implies entries@ == m by {
                        if k + 1 < m.len() {
                            assert(m.skip(k + 1)[0] == m[k + 1]);
                            assert(m.skip(k + 1).skip(1) =~= m.skip(k + 2));
                            assert(enc_rest(m.skip(k + 1)) == seq![44u8] + enc_entry(
                                m.skip(k + 1)[0],
                            ) + enc_rest(m.skip(k + 1).skip(1)));
                            assert(s@.skip(j as int) == (seq![44u8] + enc_entry(m[k + 1])
                                + enc_rest(m.skip(k + 2))) + seq![125u8]);
                            assert(s@.skip(j as int)[0] == s@[j as int]);
                            assert(s@[j as int] == 44u8);
                            assert(false);
                        }
                        assert(k + 1 == m.len());
                        assert(entries@ == m.take(k + 1));
                        assert(m.take(k + 1) =~= m);
                    }
                }
                return Some(CacheStore { entries });
            } else {
                proof {
                    assert forall|m: Seq<CacheEntry>|
                        s@ == enc_cache(m) && unique_pids(m) implies false by {
                        if k + 1 < m.len() {
                            assert(m.skip(k + 1)[0] == m[k + 1]);
                            assert(m.skip(k + 1).skip(1) =~= m.skip(k + 2));
                            assert(enc_rest(m.skip(k + 1)) == seq![44u8] + enc_entry(
                                m.skip(k + 1)[0],
                            ) + enc_rest(m.skip(k + 1).skip(1)));
                            assert(s@.skip(j as int) == (seq![44u8] + enc_entry(m[k + 1])
                                + enc_rest(m.skip(k + 2))) + seq![125u8]);
                            assert(s@.skip(j as int)[0] == s@[j as int]);
                            assert(s@[j as int] == 44u8);
                        } else {
                            assert(enc_rest(m.skip(k + 1)) =~= Seq::<u8>::empty());
                            assert(enc_rest(m.skip(k + 1)) + seq![125u8] =~= seq![125u8]);
                            assert(s@.skip(j as int).len() == 1);
                        }
                    }
                }
                return None;
            }
        } else {
            proof {
                assert forall|m: Seq<CacheEntry>|
                    s@ == enc_cache(m) && unique_pids(m) implies false by {
                    if k + 1 < m.len() {
                        assert(m.skip(k + 1)[0] == m[k + 1]);
                        assert(m.skip(k + 1).skip(1) =~= m.skip(k + 2));
                        assert(enc_rest(m.skip(k + 1)) == seq![44u8] + enc_entry(
                            m.skip(k + 1)[0],
                        ) + enc_rest(m.skip(k + 1).skip(1)));
                        assert(s@.skip(j as int) == (seq![44u8] + enc_entry(m[k + 1]) + enc_rest(
                            m.skip(k + 2),
                        )) + seq![125u8]);
                        assert(s@.skip(j as int)[0] == s@[j as int]);
                        assert(s@[j as int] == 44u8);
                    } else {
                        assert(enc_rest(m.skip(k + 1)) =~= Seq::<u8>::empty());
                        assert(enc_rest(m.skip(k + 1)) + seq![125u8] =~= seq![125u8]);
                        assert(s@.skip(j as int)[0] == s@[j as int]);
                        assert(s@[j as int] == 125u8);
                    }
                }
            }
            return None;
        }
    }
}

/// Loads the store from what was read off the disk: a missing file or a
/// document this library did not write yields the empty store, never an
/// error.
pub fn load_cache(bytes: Option<&Vec<u8>>) -> (r: CacheStore)
    ensures
        bytes is None ==> r.entries@ == Seq::<CacheEntry>::empty(),
        forall|m: Seq<CacheEntry>|
            (bytes matches Some(b) && b@ == #[trigger] enc_cache(m) && unique_pids(m))
                ==> r.entries@ == m,
        (bytes matches Some(b) && !(exists|m: Seq<CacheEntry>| b@ == #[trigger] enc_cache(m)))
            ==> r.entries@ == Seq::<CacheEntry>::empty(),
        unique_pids(r.entries@),
{
    match bytes {
        None => CacheStore::new(),
        Some(b) => {
            match parse_cache(b.as_slice()) {
                Some(st) => {
                    proof {
                        assert(b@ == enc_cache(st.entries@));
                    }
                    st
                },
                None => CacheStore::new(),
            }
        },
    }
}

} // verus!
