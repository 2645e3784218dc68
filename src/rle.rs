//! Run-length compression of a color's column bytes within one strip.
//!
//! The encoder walks the bytes with a state `(last, count)` that starts at `(0, 0)`.
//! A byte equal to `last` lengthens the pending run; any other byte first flushes the
//! pending run and then starts a new run of one. The final run is flushed at the end.
//! A run longer than two is written as `!<count><byte>`, shorter runs literally.
use vstd::prelude::*;
use crate::decimal::{decimal, push_decimal};

verus! {

/// The byte `!` that introduces a repeat token.
pub const REPEAT_MARK: u8 = 33;

/// What the encoder has written so far, the byte of the pending run, and its length.
pub type RunState = (Seq<u8>, u8, nat);

/// The bytes written for a pending run of `n` copies of `b`.
pub open spec fn flush(b: u8, n: nat) -> Seq<u8> {
    if n > 2 {
        seq![REPEAT_MARK] + decimal(n) + seq![b]
    } else if n == 2 {
        seq![b, b]
    } else if n == 1 {
        seq![b]
    } else {
        Seq::empty()
    }
}

/// One transition of the encoder on byte `b`.
pub open spec fn step(st: RunState, b: u8) -> RunState {
    if b == st.1 {
        (st.0, st.1, st.2 + 1)
    } else {
        (st.0 + flush(st.1, st.2), b, 1)
    }
}

/// The state after feeding the bytes of `s`, in order, starting from `st`.
pub open spec fn scan_from(st: RunState, s: Seq<u8>) -> RunState
    decreases s.len(),
{
    if s.len() == 0 {
        st
    } else {
        step(scan_from(st, s.drop_last()), s.last())
    }
}

/// The encoder's initial state.
pub open spec fn initial_state() -> RunState {
    (Seq::empty(), 0, 0)
}

/// The complete run-length encoding of `s`: everything written during the scan,
/// followed by the flush of the last run.
pub open spec fn run_length_encode(s: Seq<u8>) -> Seq<u8> {
    let st = scan_from(initial_state(), s);
    st.0 + flush(st.1, st.2)
}

/// A byte that can stand for a column of a strip: the base `?` plus a six-bit mask.
pub open spec fn is_sixel_byte(b: u8) -> bool {
    63 <= b <= 126
}

/// `k` copies of `b`.
pub open spec fn repeat(b: u8, k: nat) -> Seq<u8> {
    Seq::new(k, |_i: int| b)
}

/// Appends the bytes that flush a run of `n` copies of `b`.
pub fn push_flush(out: &mut Vec<u8>, b: u8, n: usize)
    ensures
        final(out)@ == old(out)@ + flush(b, n as nat),
{
    if n > 2 {
        out.push(REPEAT_MARK);
        push_decimal(out, n as u64);
        out.push(b);
    } else if n == 2 {
        out.push(b);
        out.push(b);
    } else if n == 1 {
        out.push(b);
    }
    assert(out@ =~= old(out)@ + flush(b, n as nat));
}

/// Appends the run-length encoding of `bytes` to `out`.
pub fn push_run_length(out: &mut Vec<u8>, bytes: &Vec<u8>)
    ensures
        final(out)@ == old(out)@ + run_length_encode(bytes@),
{
    let ghost start = out@;
    let mut last: u8 = 0;
    let mut count: usize = 0;
    let mut i: usize = 0;
    while i < bytes.len()
        invariant
            i <= bytes.len(),
            count <= i,
            start == old(out)@,
            out@ == start + scan_from(initial_state(), bytes@.take(i as int)).0,
            last == scan_from(initial_state(), bytes@.take(i as int)).1,
            count == scan_from(initial_state(), bytes@.take(i as int)).2,
        decreases bytes.len() - i,
    {
        let b = bytes[i];
        proof {
            assert(bytes@.take(i + 1).drop_last() =~= bytes@.take(i as int));
        }
        if b == last {
            count = count + 1;
        } else {
            push_flush(out, last, count);
            proof {
                assert(out@ =~= start + scan_from(initial_state(), bytes@.take(i + 1)).0);
            }
            last = b;
            count = 1;
        }
        i = i + 1;
    }
    push_flush(out, last, count);
    proof {
        assert(bytes@.take(i as int) =~= bytes@);
        assert(out@ =~= start + run_length_encode(bytes@));
    }
}

/// Feeding `s1` and then `s2` is feeding `s1 + s2`.
pub proof fn lemma_scan_append(st: RunState, s1: Seq<u8>, s2: Seq<u8>)
    ensures
        scan_from(st, s1 + s2) == scan_from(scan_from(st, s1), s2),
    decreases s2.len(),
{
    if s2.len() == 0 {
        assert(s1 + s2 =~= s1);
    } else {
        assert((s1 + s2).drop_last() =~= s1 + s2.drop_last());
        lemma_scan_append(st, s1, s2.drop_last());
    }
}

/// What was written before a scan stays a prefix of what is written after it.
pub proof fn lemma_scan_prefix(p: Seq<u8>, st: RunState, s: Seq<u8>)
    ensures
        scan_from((p + st.0, st.1, st.2), s) == (p + scan_from(st, s).0, scan_from(st, s).1, scan_from(
            st,
            s,
        ).2),
    decreases s.len(),
{
    if s.len() > 0 {
        lemma_scan_prefix(p, st, s.drop_last());
        let q = scan_from(st, s.drop_last());
        assert(p + q.0 + flush(q.1, q.2) =~= p + (q.0 + flush(q.1, q.2)));
    }
}

/// A run of `k` copies of a byte other than the pending one flushes the pending run
/// and becomes the new pending run.
pub proof fn lemma_scan_repeat(st: RunState, b: u8, k: nat)
    requires
        k >= 1,
        b != st.1,
    ensures
        scan_from(st, repeat(b, k)) == (st.0 + flush(st.1, st.2), b, k),
    decreases k,
{
    assert(repeat(b, k).drop_last() =~= repeat(b, (k - 1) as nat));
    assert(repeat(b, k).last() == b);
    if k > 1 {
        lemma_scan_repeat(st, b, (k - 1) as nat);
    } else {
        assert(repeat(b, 0).len() == 0);
        assert(scan_from(st, repeat(b, 0)) == st);
    }
}

/// The encoding splits at every run boundary: a maximal run of `k` equal column bytes
/// is written as the flush of that run alone, between the encodings of what comes
/// before and after it. So a run of two is two literal bytes, and a run of three is
/// the repeat token `!3` followed by the byte.
pub proof fn lemma_run_boundary(a: Seq<u8>, b: u8, k: nat, c: Seq<u8>)
    requires
        k >= 1,
        forall|i: int| 0 <= i < a.len() ==> is_sixel_byte(#[trigger] a[i]),
        forall|i: int| 0 <= i < c.len() ==> is_sixel_byte(#[trigger] c[i]),
        is_sixel_byte(b),
        a.len() > 0 ==> a.last() != b,
        c.len() > 0 ==> c[0] != b,
    ensures
        run_length_encode(a + repeat(b, k) + c) == run_length_encode(a) + flush(b, k)
            + run_length_encode(c),
        k == 2 ==> flush(b, k) == seq![b, b],
        k == 3 ==> flush(b, k) == seq![REPEAT_MARK, 51u8, b],
{
    let sa = scan_from(initial_state(), a);
    if a.len() > 0 {
        assert(a =~= a.drop_last().push(a.last()));
        assert(sa.1 == a.last());
    }
    lemma_scan_append(initial_state(), a, repeat(b, k));
    lemma_scan_repeat(sa, b, k);
    let sr = (run_length_encode(a), b, k);
    lemma_scan_append(initial_state(), a + repeat(b, k), c);
    let pre = run_length_encode(a) + flush(b, k);
    if c.len() == 0 {
        assert(a + repeat(b, k) + c =~= a + repeat(b, k));
        assert(scan_from(initial_state(), c) == initial_state());
        assert(run_length_encode(c) =~= Seq::<u8>::empty());
        assert(run_length_encode(a) + flush(b, k) + run_length_encode(c) =~= run_length_encode(a)
            + flush(b, k));
    } else {
        let c0 = seq![c[0]];
        let rest = c.drop_first();
        assert(c =~= c0 + rest);
        assert(c0.drop_last() =~= Seq::<u8>::empty());
        lemma_scan_append(sr, c0, rest);
        lemma_scan_append(initial_state(), c0, rest);
        assert(c0.drop_last().len() == 0);
        assert(scan_from(initial_state(), c0.drop_last()) == initial_state());
        assert(scan_from(sr, c0.drop_last()) == sr);
        assert(c0.last() == c[0]);
        assert(Seq::<u8>::empty() + flush(0u8, 0nat) =~= Seq::<u8>::empty());
        let fresh = scan_from(initial_state(), c0);
        assert(fresh == (Seq::<u8>::empty(), c[0], 1nat));
        assert(scan_from(sr, c0) == (pre, c[0], 1nat));
        lemma_scan_prefix(pre, fresh, rest);
        assert(pre + fresh.0 =~= pre);
        let sc = scan_from(fresh, rest);
        assert(pre + sc.0 + flush(sc.1, sc.2) =~= pre + (sc.0 + flush(sc.1, sc.2)));
    }
    if k == 3 {
        assert(decimal(3) =~= seq![51u8]);
        assert(flush(b, k) =~= seq![REPEAT_MARK, 51u8, b]);
    }
    if k == 2 {
        assert(flush(b, k) =~= seq![b, b]);
    }
}

/// The bytes spelled out by runs: `ks[i]` copies of `bs[i]`, for each `i` in order.
pub open spec fn expand_runs(bs: Seq<u8>, ks: Seq<nat>) -> Seq<u8>
    decreases bs.len(),
{
    if bs.len() == 0 || ks.len() == 0 {
        Seq::empty()
    } else {
        expand_runs(bs.drop_last(), ks.drop_last()) + repeat(bs.last(), ks.last())
    }
}

/// The flushes of those runs, in order.
pub open spec fn flush_runs(bs: Seq<u8>, ks: Seq<nat>) -> Seq<u8>
    decreases bs.len(),
{
    if bs.len() == 0 || ks.len() == 0 {
        Seq::empty()
    } else {
        flush_runs(bs.drop_last(), ks.drop_last()) + flush(bs.last(), ks.last())
    }
}

/// `bs` and `ks` split a sequence into maximal runs: one positive length per byte, and
/// no two neighbouring runs of the same byte.
pub open spec fn maximal_runs(bs: Seq<u8>, ks: Seq<nat>) -> bool {
    &&& bs.len() == ks.len()
    &&& forall|i: int| 0 <= i < ks.len() ==> #[trigger] ks[i] >= 1
    &&& forall|i: int| 0 < i < bs.len() ==> #[trigger] bs[i] != bs[i - 1]
}

/// Every sequence of column bytes splits into maximal runs, and its encoding is the
/// flush of each run in turn: a run of one or two stays literal, a longer run of `k`
/// becomes `!<k>` and the byte. So no repeat token counts fewer than three, and no run
/// of two is ever written as a token.
pub proof fn lemma_encoding_by_runs(s: Seq<u8>) -> (runs: (Seq<u8>, Seq<nat>))
    requires
        forall|i: int| 0 <= i < s.len() ==> is_sixel_byte(#[trigger] s[i]),
    ensures
        maximal_runs(runs.0, runs.1),
        expand_runs(runs.0, runs.1) == s,
        run_length_encode(s) == flush_runs(runs.0, runs.1),
        forall|i: int| 0 <= i < runs.0.len() ==> is_sixel_byte(#[trigger] runs.0[i]),
{
    let runs = lemma_scan_by_runs(s);
    if s.len() == 0 {
        assert(run_length_encode(s) =~= flush_runs(runs.0, runs.1));
    } else {
        let (bs, ks) = runs;
        assert(bs.drop_last().len() == ks.drop_last().len());
    }
    runs
}

proof fn lemma_scan_by_runs(s: Seq<u8>) -> (runs: (Seq<u8>, Seq<nat>))
    requires
        forall|i: int| 0 <= i < s.len() ==> is_sixel_byte(#[trigger] s[i]),
    ensures
        maximal_runs(runs.0, runs.1),
        expand_runs(runs.0, runs.1) == s,
        forall|i: int| 0 <= i < runs.0.len() ==> is_sixel_byte(#[trigger] runs.0[i]),
        s.len() == 0 ==> runs.0.len() == 0,
        s.len() > 0 ==> runs.0.len() > 0 && scan_from(initial_state(), s) == (
            flush_runs(runs.0.drop_last(), runs.1.drop_last()),
            runs.0.last(),
            runs.1.last(),
        ),
    decreases s.len(),
{
    if s.len() == 0 {
        (Seq::empty(), Seq::empty())
    } else {
        let p = s.drop_last();
        let x = s.last();
        let (bs, ks) = lemma_scan_by_runs(p);
        assert(s =~= p.push(x));
        if p.len() == 0 {
            let rb = seq![x];
            let rk = seq![1nat];
            assert(rb.drop_last() =~= Seq::<u8>::empty());
            assert(rk.drop_last() =~= Seq::<nat>::empty());
            assert(repeat(x, 1) =~= seq![x]);
            assert(expand_runs(rb.drop_last(), rk.drop_last()) =~= Seq::<u8>::empty());
            assert(expand_runs(rb, rk) == expand_runs(rb.drop_last(), rk.drop_last()) + repeat(
                x,
                1,
            ));
            assert(s =~= seq![x]);
            assert(expand_runs(rb, rk) =~= s);
            assert(scan_from(initial_state(), p) == initial_state());
            assert(flush(0u8, 0nat) =~= Seq::<u8>::empty());
            assert(Seq::<u8>::empty() + Seq::<u8>::empty() =~= Seq::<u8>::empty());
            (rb, rk)
        } else if x == bs.last() {
            let n = (ks.len() - 1) as int;
            let rk = ks.update(n, ks[n] + 1);
            assert(rk.drop_last() =~= ks.drop_last());
            assert(repeat(x, rk.last()) =~= repeat(x, ks.last()).push(x));
            assert(expand_runs(bs, rk) =~= expand_runs(bs, ks).push(x));
            assert forall|i: int| 0 <= i < rk.len() implies #[trigger] rk[i] >= 1 by {
                if i < n {
                    assert(rk[i] == ks[i]);
                }
            }
            (bs, rk)
        } else {
            let rb = bs.push(x);
            let rk = ks.push(1nat);
            assert(rb.drop_last() =~= bs);
            assert(rk.drop_last() =~= ks);
            assert(repeat(x, 1) =~= seq![x]);
            assert(expand_runs(rb, rk) =~= expand_runs(bs, ks) + seq![x]);
            assert(p + seq![x] =~= s);
            assert forall|i: int| 0 < i < rb.len() implies #[trigger] rb[i] != rb[i - 1] by {
                if i < bs.len() {
                    assert(rb[i] == bs[i] && rb[i - 1] == bs[i - 1]);
                }
            }
            assert forall|i: int| 0 <= i < rb.len() implies is_sixel_byte(#[trigger] rb[i]) by {
                if i < bs.len() {
                    assert(rb[i] == bs[i]);
                }
            }
            assert forall|i: int| 0 <= i < rk.len() implies #[trigger] rk[i] >= 1 by {
                if i < ks.len() {
                    assert(rk[i] == ks[i]);
                }
            }
            (rb, rk)
        }
    }
}

} // verus!
