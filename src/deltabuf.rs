//! A compact log of metric deltas, newest first.
//!
//! Each entry is a signed delta between two consecutive samples, a run of
//! zero deltas, or a run of missing samples. Entries are prepended, so the
//! front of the byte log is the newest entry.
use std::collections::VecDeque;
use vstd::prelude::*;

verus! {

pub const SIGN_BIT: u8 = 0b00100000;

pub const SPECIAL_BIT: u8 = 0b01000000;

pub const SPECIAL_BITS: u8 = 0b01100000;

pub const SPECIAL_MASK: u8 = 0b00011111;

pub const SKIP_BITS: u8 = 0b01100000;

pub const ZERO_BITS: u8 = 0b01000000;

pub const CONTINUATION_BIT: u8 = 0b10000000;

pub const FIRST_BYTE_MASK: u8 = 0b00011111;

pub const CONTINUATION_MASK: u8 = 0b01111111;

/// One decoded entry of a delta buffer.
#[derive(PartialEq, Eq, Structural, Debug, Clone, Copy)]
pub enum Delta {
    Positive(u64),
    Negative(u64),
    Skip,
}

/// The byte log; its view is the sequence of bytes from front (newest) to back.
#[derive(Debug)]
pub struct DeltaBuf(VecDeque<u8>);

impl Clone for DeltaBuf {
    fn clone(&self) -> (r: DeltaBuf)
        ensures
            r@ == self@,
    {
        let c = self.0.clone();
        assert(c@ =~= self.0@);
        DeltaBuf(c)
    }
}

impl View for DeltaBuf {
    type V = Seq<u8>;

    closed spec fn view(&self) -> Seq<u8> {
        self.0@
    }
}

/// `n` copies of `d`.
pub open spec fn repeat(d: Delta, n: nat) -> Seq<Delta> {
    Seq::new(n, |_i: int| d)
}

/// The entries of a run byte: `Skip` for a skip run, `Positive(0)` for a zero run.
pub open spec fn run_of(b: u8) -> Seq<Delta> {
    if b & SPECIAL_BITS == SKIP_BITS {
        repeat(Delta::Skip, (b & SPECIAL_MASK) as nat)
    } else {
        repeat(Delta::Positive(0), (b & SPECIAL_MASK) as nat)
    }
}

/// The value of a numeric terminator byte read after accumulator `acc`.
pub open spec fn number_of(acc: u64, b: u8) -> Delta {
    let v = (acc << 5u64) | ((b & FIRST_BYTE_MASK) as u64);
    if b & SIGN_BIT != 0 {
        Delta::Negative(v)
    } else {
        Delta::Positive(v)
    }
}

/// Reading one byte: the accumulator and the entries emitted so far.
pub open spec fn step(acc: u64, out: Seq<Delta>, b: u8) -> (u64, Seq<Delta>) {
    if b & CONTINUATION_BIT != 0 {
        ((acc << 7u64) | ((b & CONTINUATION_MASK) as u64), out)
    } else if b & SPECIAL_BIT != 0 {
        (acc, out + run_of(b))
    } else {
        (0, out.push(number_of(acc, b)))
    }
}

/// Reading the bytes `s` front to back, from accumulator `acc` and output `out`.
pub open spec fn decode_from(acc: u64, out: Seq<Delta>, s: Seq<u8>) -> (u64, Seq<Delta>)
    decreases s.len(),
{
    if s.len() == 0 {
        (acc, out)
    } else {
        let p = decode_from(acc, out, s.drop_last());
        step(p.0, p.1, s.last())
    }
}

/// All entries of a byte log, newest first.
pub open spec fn decode(s: Seq<u8>) -> Seq<Delta> {
    decode_from(0, seq![], s).1
}

/// The first `n` entries of `s`, or all of them where it holds fewer.
pub open spec fn first_n(s: Seq<Delta>, n: int) -> Seq<Delta> {
    if n < s.len() {
        s.take(n)
    } else {
        s
    }
}

proof fn lemma_step_out(acc: u64, out: Seq<Delta>, b: u8)
    ensures
        step(acc, out, b).0 == step(acc, seq![], b).0,
        step(acc, out, b).1 == out + step(acc, seq![], b).1,
{
    let e: Seq<Delta> = seq![];
    if b & CONTINUATION_BIT != 0 {
        assert(out =~= out + e);
    } else if b & SPECIAL_BIT != 0 {
        assert(out + run_of(b) =~= out + (e + run_of(b)));
    } else {
        assert(out.push(number_of(acc, b)) =~= out + e.push(number_of(acc, b)));
    }
}

/// The entries emitted while reading `s` do not depend on those before.
proof fn lemma_decode_out(acc: u64, out: Seq<Delta>, s: Seq<u8>)
    ensures
        decode_from(acc, out, s).0 == decode_from(acc, seq![], s).0,
        decode_from(acc, out, s).1 == out + decode_from(acc, seq![], s).1,
    decreases s.len(),
{
    if s.len() == 0 {
        assert(out =~= out + Seq::<Delta>::empty());
    } else {
        lemma_decode_out(acc, out, s.drop_last());
        let p = decode_from(acc, seq![], s.drop_last());
        lemma_step_out(p.0, out + p.1, s.last());
        lemma_step_out(p.0, p.1, s.last());
        assert(out + p.1 + step(p.0, seq![], s.last()).1 =~= out + (p.1 + step(
            p.0,
            seq![],
            s.last(),
        ).1));
    }
}

/// Reading `s + t` is reading `s`, then `t` from where `s` left off.
proof fn lemma_decode_append(acc: u64, out: Seq<Delta>, s: Seq<u8>, t: Seq<u8>)
    ensures
        decode_from(acc, out, s + t) == decode_from(
            decode_from(acc, out, s).0,
            decode_from(acc, out, s).1,
            t,
        ),
    decreases t.len(),
{
    if t.len() == 0 {
        assert(s + t =~= s);
    } else {
        assert((s + t).drop_last() =~= s + t.drop_last());
        assert((s + t).last() == t.last());
        lemma_decode_append(acc, out, s, t.drop_last());
    }
}

/// The entries of the first `k` bytes begin the entries of the whole log.
proof fn lemma_decode_prefix(s: Seq<u8>, k: int)
    requires
        0 <= k <= s.len(),
    ensures
        decode(s.take(k)).len() <= decode(s).len(),
        decode(s).take(decode(s.take(k)).len() as int) == decode(s.take(k)),
{
    let p = decode_from(0, seq![], s.take(k));
    assert(s =~= s.take(k) + s.skip(k));
    lemma_decode_append(0, seq![], s.take(k), s.skip(k));
    lemma_decode_out(p.0, p.1, s.skip(k));
    assert(decode(s).take(p.1.len() as int) =~= p.1);
}

/// Reading one more byte at the back is one more step.
proof fn lemma_decode_push(acc: u64, out: Seq<Delta>, s: Seq<u8>, b: u8)
    ensures
        decode_from(acc, out, s.push(b)) == step(
            decode_from(acc, out, s).0,
            decode_from(acc, out, s).1,
            b,
        ),
{
    assert(s.push(b).drop_last() =~= s);
}

/// Whether `s1` is the log `s0` cut to its first `n` bytes so that it holds
/// `limit` entries: the first `n - 1` bytes are kept, and the last kept byte
/// is kept too, or is the same kind of run with its count lowered to the
/// entries still wanted, at least one.
pub open spec fn cut_bytes(s0: Seq<u8>, s1: Seq<u8>, n: int, limit: int) -> bool {
    &&& 0 < n <= s0.len()
    &&& s1.len() == n
    &&& s1.take(n - 1) == s0.take(n - 1)
    &&& s0[n - 1] & CONTINUATION_BIT == 0
    &&& (s1[n - 1] == s0[n - 1] || {
        &&& s0[n - 1] & SPECIAL_BIT != 0
        &&& s1[n - 1] & CONTINUATION_BIT == 0
        &&& s1[n - 1] & SPECIAL_BITS == s0[n - 1] & SPECIAL_BITS
        &&& 0 < (s1[n - 1] & SPECIAL_MASK) < (s0[n - 1] & SPECIAL_MASK)
        &&& (s1[n - 1] & SPECIAL_MASK) == limit - decode(s0.take(n - 1)).len()
    })
}

/// The entry that a change from `old_value` to `new_value` is stored as.
pub open spec fn delta_of(old_value: u64, new_value: u64) -> Delta {
    if old_value > new_value {
        Delta::Negative((old_value - new_value) as u64)
    } else {
        Delta::Positive((new_value - old_value) as u64)
    }
}

/// The skip-run bytes for `n` missing samples, at most 31 to a byte; the
/// first byte emitted is the deepest.
pub open spec fn skip_bytes(n: nat) -> Seq<u8>
    decreases n,
{
    if n == 0 {
        seq![]
    } else {
        let c: nat = if n < 31 {
            n
        } else {
            31
        };
        skip_bytes((n - c) as nat) + seq![SKIP_BITS | (c as u8)]
    }
}

/// The continuation bytes of `x`, seven bits each, most significant first.
pub open spec fn cont_bytes(x: u64) -> Seq<u8>
    decreases x,
    via cont_bytes_decreases
{
    if x == 0 {
        seq![]
    } else {
        cont_bytes(x >> 7u64) + seq![CONTINUATION_BIT | ((x & 127u64) as u8)]
    }
}

#[via_fn]
proof fn cont_bytes_decreases(x: u64) {
    if x != 0 {
        assert(x >> 7u64 < x) by (bit_vector)
            requires
                x != 0,
        ;
    }
}

/// The bytes of a non-zero delta of magnitude `d`: its high bits in
/// continuation bytes, then a terminator with the sign and the low five bits.
pub open spec fn num_bytes(d: u64, negative: bool) -> Seq<u8> {
    cont_bytes(d >> 5u64) + seq![
        (if negative {
            SIGN_BIT
        } else {
            0u8
        }) | ((d & 31u64) as u8),
    ]
}

/// Whether `b` is a zero-run terminator that can count one more.
pub open spec fn extends_zero_run(b: u8) -> bool {
    b & CONTINUATION_BIT == 0 && b & SPECIAL_BITS == ZERO_BITS && b & SPECIAL_MASK < SPECIAL_MASK
}

/// The log `t` after one more zero delta.
pub open spec fn zero_pushed(t: Seq<u8>) -> Seq<u8> {
    if t.len() > 0 && extends_zero_run(t[0]) {
        seq![(((t[0] & SPECIAL_MASK) + 1) as u8) | ZERO_BITS] + t.drop_first()
    } else {
        seq![ZERO_BITS | 1] + t
    }
}

/// The log `s` after `push(old_value, new_value, age_diff)`.
pub open spec fn pushed(s: Seq<u8>, old_value: u64, new_value: u64, age_diff: u64) -> Seq<u8> {
    if age_diff == 0 {
        s
    } else {
        let t = skip_bytes((age_diff - 1) as nat) + s;
        if old_value == new_value {
            zero_pushed(t)
        } else if old_value > new_value {
            num_bytes((old_value - new_value) as u64, true) + t
        } else {
            num_bytes((new_value - old_value) as u64, false) + t
        }
    }
}

/// The entries of the log `s` after `push(old_value, new_value, age_diff)`.
pub open spec fn pushed_entries(s: Seq<u8>, old_value: u64, new_value: u64, age_diff: u64) -> Seq<
    Delta,
> {
    if age_diff == 0 {
        decode(s)
    } else {
        seq![delta_of(old_value, new_value)] + repeat(Delta::Skip, (age_diff - 1) as nat) + decode(s)
    }
}

/// Bytes that leave the accumulator clear can be read on their own.
proof fn lemma_decode_prepend(p: Seq<u8>, t: Seq<u8>)
    requires
        decode_from(0, seq![], p).0 == 0,
    ensures
        decode(p + t) == decode(p) + decode(t),
{
    lemma_decode_append(0, seq![], p, t);
    lemma_decode_out(0, decode(p), t);
}

proof fn lemma_skip_bytes(n: nat)
    ensures
        decode_from(0, seq![], skip_bytes(n)) == (0u64, repeat(Delta::Skip, n)),
    decreases n,
{
    if n > 0 {
        let c: nat = if n < 31 {
            n
        } else {
            31
        };
        let cb = c as u8;
        let b = SKIP_BITS | cb;
        lemma_skip_bytes((n - c) as nat);
        assert(skip_bytes(n) =~= skip_bytes((n - c) as nat).push(b));
        lemma_decode_push(0, seq![], skip_bytes((n - c) as nat), b);
        assert(1 <= cb <= 31 ==> (0b01100000u8 | cb) & 0b10000000u8 == 0 && (0b01100000u8 | cb)
            & 0b01000000u8 != 0 && (0b01100000u8 | cb) & 0b01100000u8 == 0b01100000u8 && (
        0b01100000u8 | cb) & 0b00011111u8 == cb) by (bit_vector);
        assert(repeat(Delta::Skip, (n - c) as nat) + repeat(Delta::Skip, c) =~= repeat(
            Delta::Skip,
            n,
        ));
    }
}

proof fn lemma_cont_bytes(x: u64)
    ensures
        decode_from(0, seq![], cont_bytes(x)) == (x, Seq::<Delta>::empty()),
    decreases x,
{
    if x > 0 {
        let h = x >> 7u64;
        let b = CONTINUATION_BIT | ((x & 127u64) as u8);
        assert(h < x) by (bit_vector)
            requires
                x != 0,
                h == x >> 7u64,
        ;
        lemma_cont_bytes(h);
        assert(cont_bytes(x) =~= cont_bytes(h).push(b));
        lemma_decode_push(0, seq![], cont_bytes(h), b);
        assert(b & 0b10000000u8 != 0 && ((h << 7u64) | ((b & 0b01111111u8) as u64)) == x)
            by (bit_vector)
            requires
                h == x >> 7u64,
                b == 0b10000000u8 | ((x & 127u64) as u8),
        ;
    }
}

proof fn lemma_num_bytes(d: u64, negative: bool)
    ensures
        decode_from(0, seq![], num_bytes(d, negative)) == (0u64, seq![
            if negative {
                Delta::Negative(d)
            } else {
                Delta::Positive(d)
            },
        ]),
{
    let h = d >> 5u64;
    let sign: u8 = if negative {
        SIGN_BIT
    } else {
        0u8
    };
    let b = sign | ((d & 31u64) as u8);
    lemma_cont_bytes(h);
    assert(num_bytes(d, negative) =~= cont_bytes(h).push(b));
    lemma_decode_push(0, seq![], cont_bytes(h), b);
    assert(b & 0b10000000u8 == 0 && b & 0b01000000u8 == 0 && ((h << 5u64) | ((b & 0b00011111u8) as u64)) == d)
        by (bit_vector)
        requires
            h == d >> 5u64,
            sign == 0b00100000u8 || sign == 0u8,
            b == sign | ((d & 31u64) as u8),
    ;
    assert((b & 0b00100000u8 != 0) == (sign == 0b00100000u8)) by (bit_vector)
        requires
            sign == 0b00100000u8 || sign == 0u8,
            b == sign | ((d & 31u64) as u8),
    ;
    assert(Seq::<Delta>::empty().push(number_of(h, b)) =~= seq![number_of(h, b)]);
}

proof fn lemma_zero_pushed(t: Seq<u8>)
    ensures
        decode(zero_pushed(t)) == seq![Delta::Positive(0)] + decode(t),
{
    let e = Seq::<u8>::empty();
    if t.len() > 0 && extends_zero_run(t[0]) {
        let f = t[0];
        let c: u8 = f & SPECIAL_MASK;
        let c1: u8 = (c + 1) as u8;
        let g = c1 | ZERO_BITS;
        assert(f & 0b01000000u8 != 0 && f & 0b01100000u8 != 0b01100000u8) by (bit_vector)
            requires
                f & 0b01100000u8 == 0b01000000u8,
        ;
        assert(c < 31 ==> c1 & 0b11100000u8 == 0) by (bit_vector)
            requires
                c1 == c + 1,
        ;
        assert(g & 0b10000000u8 == 0 && g & 0b01000000u8 != 0 && g & 0b01100000u8 == 0b01000000u8
            && g & 0b00011111u8 == c1) by (bit_vector)
            requires
                c1 & 0b11100000u8 == 0,
                g == c1 | 0b01000000u8,
        ;
        assert(e.push(f) =~= seq![f]);
        assert(e.push(g) =~= seq![g]);
        lemma_decode_push(0, seq![], e, f);
        lemma_decode_push(0, seq![], e, g);
        assert(t =~= seq![f] + t.drop_first());
        lemma_decode_prepend(seq![f], t.drop_first());
        lemma_decode_prepend(seq![g], t.drop_first());
        assert(decode(seq![g]) =~= seq![Delta::Positive(0)] + decode(seq![f]));
        assert(decode(zero_pushed(t)) =~= seq![Delta::Positive(0)] + decode(t));
    } else {
        let g = ZERO_BITS | 1;
        assert(g & 0b10000000u8 == 0 && g & 0b01000000u8 != 0 && g & 0b01100000u8 == 0b01000000u8
            && g & 0b00011111u8 == 1) by (bit_vector)
            requires
                g == 0b01000000u8 | 1u8,
        ;
        assert(e.push(g) =~= seq![g]);
        lemma_decode_push(0, seq![], e, g);
        lemma_decode_prepend(seq![g], t);
        assert(decode(seq![g]) =~= seq![Delta::Positive(0)]);
    }
}

/// What `push` does to the entries of a log, whatever the log holds.
pub proof fn lemma_pushed(s: Seq<u8>, old_value: u64, new_value: u64, age_diff: u64)
    ensures
        decode(pushed(s, old_value, new_value, age_diff)) == pushed_entries(
            s,
            old_value,
            new_value,
            age_diff,
        ),
{
    if age_diff > 0 {
        let n = (age_diff - 1) as nat;
        let t = skip_bytes(n) + s;
        lemma_skip_bytes(n);
        lemma_decode_prepend(skip_bytes(n), s);
        let d = delta_of(old_value, new_value);
        if old_value == new_value {
            lemma_zero_pushed(t);
        } else if old_value > new_value {
            lemma_num_bytes((old_value - new_value) as u64, true);
            lemma_decode_prepend(num_bytes((old_value - new_value) as u64, true), t);
        } else {
            lemma_num_bytes((new_value - old_value) as u64, false);
            lemma_decode_prepend(num_bytes((new_value - old_value) as u64, false), t);
        }
        assert(decode(pushed(s, old_value, new_value, age_diff)) =~= seq![d] + repeat(
            Delta::Skip,
            n,
        ) + decode(s));
    }
}

impl DeltaBuf {
    /// An empty log.
    pub fn new() -> (r: DeltaBuf)
        ensures
            r@ == Seq::<u8>::empty(),
            decode(r@) == Seq::<Delta>::empty(),
    {
        DeltaBuf(VecDeque::new())
    }

    /// Records the change from `old_value` to `new_value`, `age_diff` ticks
    /// after the previous sample: `age_diff - 1` missing samples, then the
    /// delta, all in front of what the log held. A change at the same tick
    /// (`age_diff == 0`) is ignored.
    pub fn push(&mut self, old_value: u64, new_value: u64, age_diff: u64)
        ensures
            final(self)@ == pushed(old(self)@, old_value, new_value, age_diff),
            decode(final(self)@) == pushed_entries(old(self)@, old_value, new_value, age_diff),
    {
        proof {
            lemma_pushed(self@, old_value, new_value, age_diff);
        }
        if age_diff == 0 {
            return;
        }
        let ghost start = self@;
        let mut age: u64 = age_diff - 1;
        while age > 0
            invariant
                skip_bytes(age as nat) + self@ == skip_bytes((age_diff - 1) as nat) + start,
            decreases age,
        {
            let cd: u64 = if age < SPECIAL_MASK as u64 {
                age
            } else {
                SPECIAL_MASK as u64
            };
            let ghost before = self@;
            self.0.push_front(SKIP_BITS | (cd as u8));
            age = age - cd;
            proof {
                assert(skip_bytes(age as nat) + self@ =~= skip_bytes((age + cd) as nat) + before);
            }
        }
        proof {
            assert(self@ =~= skip_bytes((age_diff - 1) as nat) + start);
        }
        if old_value == new_value {
            if self.0.len() > 0 {
                let f = self.0[0];
                if f & CONTINUATION_BIT == 0 && f & SPECIAL_BITS == ZERO_BITS && f & SPECIAL_MASK
                    < SPECIAL_MASK {
                    let ghost before = self@;
                    let _ = self.0.pop_front();
                    self.0.push_front(((f & SPECIAL_MASK) + 1) | ZERO_BITS);
                    proof {
                        assert(self@ =~= zero_pushed(before));
                    }
                    return;
                }
            }
            self.0.push_front(ZERO_BITS | 1);
            return;
        }
        let (mut delta, sign) = if old_value > new_value {
            (old_value - new_value, SIGN_BIT)
        } else {
            (new_value - old_value, 0u8)
        };
        let ghost tail = self@;
        let ghost d = delta;
        self.0.push_front(sign | ((delta & (FIRST_BYTE_MASK as u64)) as u8));
        delta = delta >> 5u64;
        let ghost high = delta;
        let ghost mid = self@;
        while delta > 0
            invariant
                cont_bytes(delta) + self@ == cont_bytes(high) + mid,
            decreases delta,
        {
            let ghost before = self@;
            let ghost x = delta;
            self.0.push_front(((delta & (CONTINUATION_MASK as u64)) as u8) | CONTINUATION_BIT);
            delta = delta >> 7u64;
            proof {
                assert(((x & 127u64) as u8) | 0b10000000u8 == 0b10000000u8 | ((x & 127u64) as u8))
                    by (bit_vector);
                assert(x >> 7u64 < x) by (bit_vector)
                    requires
                        x != 0,
                ;
                assert(cont_bytes(delta) + self@ =~= cont_bytes(x) + before);
            }
        }
        proof {
            assert(self@ =~= num_bytes(d, old_value > new_value) + tail);
        }
    }

    /// The number of bytes the log occupies.
    pub fn byte_len(&self) -> (r: usize)
        ensures
            r == self@.len(),
    {
        self.0.len()
    }

    /// The newest `limit` entries, newest first (all of them where the log
    /// holds fewer).
    pub fn deltas(&self, limit: usize) -> (r: Vec<Delta>)
        ensures
            r@ == first_n(decode(self@), limit as int),
    {
        let deque = &self.0;
        proof {
            assert(self@ == deque@);
        }
        let n = deque.len();
        let mut res: Vec<Delta> = Vec::new();
        let mut delta: u64 = 0;
        let mut i: usize = 0;
        while i < n && res.len() < limit
            invariant
                self@ == deque@,
                n == deque@.len(),
                0 <= i <= n,
                res@.len() <= limit,
                decode_from(0, seq![], deque@.take(i as int)) == (delta, res@),
            decreases n - i,
        {
            let byte = deque[i];
            proof {
                assert(deque@.take(i + 1) =~= deque@.take(i as int).push(byte));
                lemma_decode_push(0, seq![], deque@.take(i as int), byte);
            }
            if byte & CONTINUATION_BIT != 0 {
                delta = (delta << 7u64) | ((byte & CONTINUATION_MASK) as u64);
            } else if byte & SPECIAL_BIT != 0 {
                let cnt = byte & SPECIAL_MASK;
                let d = if byte & SPECIAL_BITS == SKIP_BITS {
                    Delta::Skip
                } else {
                    Delta::Positive(0)
                };
                let ghost start = res@;
                let mut j: u8 = 0;
                while j < cnt && res.len() < limit
                    invariant
                        0 <= j <= cnt,
                        res@.len() <= limit,
                        res@ == start + repeat(d, j as nat),
                    decreases cnt - j,
                {
                    res.push(d);
                    j = j + 1;
                    proof {
                        assert(res@ =~= start + repeat(d, j as nat));
                    }
                }
                if j < cnt {
                    proof {
                        let whole = decode(deque@.take(i + 1));
                        assert(whole == start + run_of(byte));
                        assert(start + repeat(d, j as nat) =~= whole.take(limit as int));
                        lemma_decode_prefix(deque@, i + 1);
                        assert(decode(deque@).take(limit as int) =~= whole.take(limit as int));
                        assert(self@ == deque@);
                    }
                    return res;
                }
                proof {
                    assert(repeat(d, j as nat) =~= run_of(byte));
                }
            } else {
                delta = (delta << 5u64) | ((byte & FIRST_BYTE_MASK) as u64);
                if byte & SIGN_BIT != 0 {
                    res.push(Delta::Negative(delta));
                } else {
                    res.push(Delta::Positive(delta));
                }
                delta = 0;
            }
            i = i + 1;
        }
        proof {
            if i < n {
                lemma_decode_prefix(deque@, i as int);
                assert(decode(deque@).take(limit as int) =~= res@);
            } else {
                assert(deque@.take(i as int) =~= deque@);
            }
        }
        res
    }

    /// Keeps the newest `limit` entries and drops the rest; returns how many
    /// entries the log then holds.
    pub fn truncate(&mut self, limit: usize) -> (r: usize)
        ensures
            r as int == if limit < decode(old(self)@).len() {
                limit as int
            } else {
                decode(old(self)@).len() as int
            },
            decode(final(self)@) == first_n(decode(old(self)@), limit as int),
            limit == 0 ==> final(self)@.len() == 0,
            0 < limit && decode(old(self)@).len() < limit ==> final(self)@ == old(self)@,
            0 < limit <= decode(old(self)@).len() ==> exists|n: int|
                cut_bytes(old(self)@, final(self)@, n, limit as int),
    {
        if limit == 0 {
            *self = DeltaBuf::new();
            proof {
                assert(decode(old(self)@).take(0) =~= Seq::<Delta>::empty());
            }
            return 0;
        }
        let ghost start = self@;
        match self._truncate_bytes(limit) {
            Ok((limit_bytes, truncate_num)) => {
                proof {
                    lemma_decode_prefix(start, limit_bytes as int);
                }
                if truncate_num > 0 {
                    let b = self.0[limit_bytes - 1];
                    let c = b & SPECIAL_MASK;
                    let nb = (b & SPECIAL_BITS) | (c - truncate_num);
                    self.0.truncate(limit_bytes - 1);
                    self.0.push_back(nb);
                    proof {
                        let p = start.take(limit_bytes - 1);
                        let t = truncate_num;
                        assert(nb & 0b10000000u8 == 0 && nb & 0b01000000u8 != 0 && nb & 0b01100000u8
                            == b & 0b01100000u8 && nb & 0b00011111u8 == c - t) by (bit_vector)
                            requires
                                b & 0b10000000u8 == 0,
                                b & 0b01000000u8 != 0,
                                c == b & 0b00011111u8,
                                0 < t < c,
                                nb == (b & 0b01100000u8) | ((c - t) as u8),
                        ;
                        assert(self@ =~= p.push(nb));
                        assert(start.take(limit_bytes as int) =~= p.push(b));
                        lemma_decode_push(0, seq![], p, b);
                        lemma_decode_push(0, seq![], p, nb);
                        let whole = decode(start.take(limit_bytes as int));
                        assert(decode(self@) =~= whole.take(limit as int));
                        assert(decode(start).take(limit as int) =~= whole.take(limit as int));
                        assert(self@.take(limit_bytes - 1) =~= p);
                        assert(cut_bytes(start, self@, limit_bytes as int, limit as int));
                    }
                } else {
                    self.0.truncate(limit_bytes);
                    proof {
                        assert(self@ =~= start.take(limit_bytes as int));
                        assert(decode(start).take(limit as int) =~= decode(self@));
                        assert(self@.take(limit_bytes - 1) =~= start.take(limit_bytes - 1));
                        assert(cut_bytes(start, self@, limit_bytes as int, limit as int));
                    }
                }
                limit
            },
            Err(num_current) => {
                proof {
                    assert(self@ == start);
                }
                num_current
            },
        }
    }

    /// Where to cut the log so that it keeps `limit` entries: `Ok` with the
    /// number of bytes to keep and by how much the run in the last kept byte
    /// overshoots, or `Err` with the number of entries where there are fewer.
    fn _truncate_bytes(&self, limit: usize) -> (r: Result<(usize, u8), usize>)
        requires
            limit > 0,
        ensures
            match r {
                Err(c) => c == decode(self@).len() && c < limit,
                Ok((n, t)) => {
                    &&& 0 < n <= self@.len()
                    &&& self@[n - 1] & CONTINUATION_BIT == 0
                    &&& decode(self@.take(n - 1)).len() < limit
                    &&& decode(self@.take(n as int)).len() == limit + t
                    &&& t > 0 ==> self@[n - 1] & SPECIAL_BIT != 0 && t < self@[n - 1]
                        & SPECIAL_MASK
                },
            },
    {
        let deque = &self.0;
        let n = deque.len();
        let mut counter: usize = 0;
        let mut idx: usize = 0;
        while idx < n
            invariant
                self@ == deque@,
                n == deque@.len(),
                0 <= idx <= n,
                counter < limit,
                counter == decode(deque@.take(idx as int)).len(),
            decreases n - idx,
        {
            let byte = deque[idx];
            proof {
                assert(deque@.take(idx + 1) =~= deque@.take(idx as int).push(byte));
                lemma_decode_push(0, seq![], deque@.take(idx as int), byte);
                assert(deque@.take(idx + 1).take(idx as int) =~= deque@.take(idx as int));
            }
            if byte & CONTINUATION_BIT == 0 {
                if byte & SPECIAL_BIT != 0 {
                    let cnt = byte & SPECIAL_MASK;
                    if cnt as usize == limit - counter {
                        return Ok((idx + 1, 0));
                    } else if cnt as usize > limit - counter {
                        return Ok((idx + 1, cnt - (limit - counter) as u8));
                    } else {
                        counter = counter + cnt as usize;
                    }
                } else {
                    counter = counter + 1;
                    if counter >= limit {
                        return Ok((idx + 1, 0));
                    }
                }
            }
            idx = idx + 1;
        }
        proof {
            assert(deque@.take(idx as int) =~= deque@);
        }
        Err(counter)
    }
}

/// The log `s` after `push(vals[i], vals[i + 1], 1)` for each consecutive
/// pair of `vals`, oldest pair first.
pub open spec fn pushed_all(s: Seq<u8>, vals: Seq<u64>) -> Seq<u8>
    decreases vals.len(),
{
    if vals.len() < 2 {
        s
    } else {
        pushed(pushed_all(s, vals.drop_last()), vals[vals.len() - 2], vals[vals.len() - 1], 1)
    }
}

/// The change between each consecutive pair of `vals`, newest first.
pub open spec fn changes(vals: Seq<u64>) -> Seq<Delta>
    decreases vals.len(),
{
    if vals.len() < 2 {
        seq![]
    } else {
        seq![delta_of(vals[vals.len() - 2], vals[vals.len() - 1])] + changes(vals.drop_last())
    }
}

/// Recording a series of samples one tick apart and reading the log back
/// gives every change between consecutive samples, newest first, in front of
/// what the log held before.
pub proof fn lemma_round_trip(s: Seq<u8>, vals: Seq<u64>)
    ensures
        decode(pushed_all(s, vals)) == changes(vals) + decode(s),
    decreases vals.len(),
{
    if vals.len() < 2 {
        assert(changes(vals) + decode(s) =~= decode(s));
    } else {
        let prev = vals.drop_last();
        lemma_round_trip(s, prev);
        lemma_pushed(pushed_all(s, prev), vals[vals.len() - 2], vals[vals.len() - 1], 1);
        assert(repeat(Delta::Skip, 0) =~= Seq::<Delta>::empty());
        assert(pushed_entries(pushed_all(s, prev), vals[vals.len() - 2], vals[vals.len() - 1], 1)
            =~= changes(vals) + decode(s));
    }
}

/// The log `b` after `n` pushes of an unchanged value `v`, one tick apart.
pub open spec fn repeated_log(b: Seq<u8>, v: u64, n: nat) -> Seq<u8>
    decreases n,
{
    if n == 0 {
        b
    } else {
        pushed(repeated_log(b, v, (n - 1) as nat), v, v, 1)
    }
}

/// The shape of `n` zero deltas: a partial run in front, then full runs.
spec fn zero_form(n: nat) -> Seq<u8> {
    let head: Seq<u8> = if n % 31 == 0 {
        seq![]
    } else {
        seq![ZERO_BITS | ((n % 31) as u8)]
    };
    head + Seq::new(n / 31, |_i: int| 0b01011111u8)
}

proof fn lemma_zero_form(b: Seq<u8>, v: u64, n: nat)
    requires
        b.len() == 0 || !extends_zero_run(b[0]),
    ensures
        repeated_log(b, v, n) == zero_form(n) + b,
    decreases n,
{
    if n == 0 {
        assert(zero_form(0) =~= Seq::<u8>::empty());
        assert(zero_form(0) + b =~= b);
    } else {
        let m = (n - 1) as nat;
        lemma_zero_form(b, v, m);
        let prev = zero_form(m) + b;
        assert(skip_bytes(0) + prev =~= prev);
        let r = m % 31;
        assert(0b01011111u8 & 0b00011111u8 == 31u8) by (bit_vector);
        if r == 0 {
            assert(n % 31 == 1 && n / 31 == m / 31);
            if m > 0 {
                assert(m / 31 > 0);
                assert(prev[0] == 0b01011111u8);
            } else {
                assert(zero_form(m) =~= Seq::<u8>::empty());
                assert(prev =~= b);
            }
            assert(zero_pushed(prev) =~= zero_form(n) + b);
        } else {
            let rb = r as u8;
            let f = ZERO_BITS | rb;
            assert(prev[0] == f);
            assert(f & 0b10000000u8 == 0 && f & 0b01100000u8 == 0b01000000u8 && f & 0b00011111u8 == rb)
                by (bit_vector)
                requires
                    1 <= rb <= 30,
                    f == 0b01000000u8 | rb,
            ;
            let g = (((f & SPECIAL_MASK) + 1) as u8) | ZERO_BITS;
            let r1 = (rb + 1) as u8;
            assert(r1 | 0b01000000u8 == 0b01000000u8 | r1) by (bit_vector);
            assert(g == 0b01000000u8 | r1);
            if r == 30 {
                assert(n % 31 == 0 && n / 31 == m / 31 + 1);
                assert(0b01000000u8 | 31u8 == 0b01011111u8) by (bit_vector);
            } else {
                assert(n % 31 == r + 1 && n / 31 == m / 31);
            }
            assert(zero_pushed(prev) =~= zero_form(n) + b);
        }
    }
}

/// The sum of the run counts of the bytes of `s`.
pub open spec fn run_total(s: Seq<u8>) -> nat
    decreases s.len(),
{
    if s.len() == 0 {
        0
    } else {
        run_total(s.drop_last()) + (s.last() & SPECIAL_MASK) as nat
    }
}

proof fn lemma_run_total_append(a: Seq<u8>, b: Seq<u8>)
    ensures
        run_total(a + b) == run_total(a) + run_total(b),
    decreases b.len(),
{
    if b.len() == 0 {
        assert(a + b =~= a);
    } else {
        assert((a + b).drop_last() =~= a + b.drop_last());
        lemma_run_total_append(a, b.drop_last());
    }
}

proof fn lemma_run_total_full(m: nat)
    ensures
        run_total(Seq::new(m, |_i: int| 0b01011111u8)) == 31 * m,
    decreases m,
{
    assert(0b01011111u8 & 0b00011111u8 == 31u8) by (bit_vector);
    if m > 0 {
        assert(Seq::new(m, |_i: int| 0b01011111u8).drop_last() =~= Seq::new(
            (m - 1) as nat,
            |_i: int| 0b01011111u8,
        ));
        lemma_run_total_full((m - 1) as nat);
    }
}

proof fn lemma_zero_form_total(n: nat)
    ensures
        run_total(zero_form(n)) == n,
{
    let full = Seq::new(n / 31, |_i: int| 0b01011111u8);
    let head: Seq<u8> = if n % 31 == 0 {
        seq![]
    } else {
        seq![ZERO_BITS | ((n % 31) as u8)]
    };
    assert(zero_form(n) == head + full);
    lemma_run_total_append(head, full);
    lemma_run_total_full(n / 31);
    if n % 31 != 0 {
        let c = (n % 31) as u8;
        let x = 0b01000000u8 | c;
        assert(1 <= c <= 30 ==> x & 0b00011111u8 == c) by (bit_vector)
            requires
                x == 0b01000000u8 | c,
        ;
        assert(head.drop_last() =~= Seq::<u8>::empty());
        assert(head.last() == x);
        assert(run_total(head) == run_total(head.drop_last()) + (x & 0b00011111u8) as nat);
        assert(run_total(head) == n % 31);
    } else {
        assert(run_total(head) == 0);
    }
    assert(n == 31 * (n / 31) + n % 31);
}

/// Pushing `n` zero deltas in front of a log `b` whose newest byte is not an
/// open zero run adds one byte per 31 of them, rounded up: zero-run bytes
/// whose counts sum to `n`, in front of `b` unchanged; they read back as `n`
/// zero deltas.
pub proof fn lemma_zero_runs(b: Seq<u8>, v: u64, n: nat)
    requires
        b.len() == 0 || !extends_zero_run(b[0]),
    ensures
        repeated_log(b, v, n).len() == (n + 30) / 31 + b.len(),
        repeated_log(b, v, n).skip(((n + 30) / 31) as int) == b,
        forall|k: int|
            0 <= k < (n + 30) / 31 ==> #[trigger] repeated_log(b, v, n)[k] & 0b11100000u8
                == ZERO_BITS && (repeated_log(b, v, n)[k] & SPECIAL_MASK) >= 1,
        run_total(repeated_log(b, v, n).take(((n + 30) / 31) as int)) == n,
        decode(repeated_log(b, v, n)) == repeat(Delta::Positive(0), n) + decode(b),
    decreases n,
{
    lemma_zero_form(b, v, n);
    let z = zero_form(n);
    assert(z.len() == (n + 30) / 31);
    assert((z + b).skip(z.len() as int) =~= b);
    assert forall|k: int| 0 <= k < z.len() implies #[trigger] (z + b)[k] & 0b11100000u8
        == ZERO_BITS && ((z + b)[k] & SPECIAL_MASK) >= 1 by {
        assert((z + b)[k] == z[k]);
        let c = (n % 31) as u8;
        assert(1 <= c <= 30 ==> (0b01000000u8 | c) & 0b11100000u8 == 0b01000000u8 && (0b01000000u8
            | c) & 0b00011111u8 == c) by (bit_vector);
        assert(0b01011111u8 & 0b11100000u8 == 0b01000000u8 && 0b01011111u8 & 0b00011111u8 == 31u8)
            by (bit_vector);
    }
    assert((z + b).take(z.len() as int) =~= z);
    lemma_zero_form_total(n);
    if n == 0 {
        assert(repeat(Delta::Positive(0), 0) + decode(b) =~= decode(b));
    } else {
        lemma_zero_runs(b, v, (n - 1) as nat);
        lemma_pushed(repeated_log(b, v, (n - 1) as nat), v, v, 1);
        assert(seq![Delta::Positive(0)] + repeat(Delta::Skip, 0) + (repeat(
            Delta::Positive(0),
            (n - 1) as nat,
        ) + decode(b)) =~= repeat(Delta::Positive(0), n) + decode(b));
    }
}

} // verus!
