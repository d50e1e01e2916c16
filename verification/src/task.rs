//! A scanning task: it feeds a stream of digit bytes to a scanner, keeps the
//! last `N` bytes, and stops at the first number it finds.
use vstd::prelude::*;
use vstd::arithmetic::div_mod::{lemma_add_mod_noop, lemma_fundamental_div_mod, lemma_small_mod};
use crate::rem::N;
use crate::residue::digits_value;
use crate::scan::{Data, pushed_lane, lemma_residue_step};
use crate::window::{slot_position, lemma_slot_position, lemma_slot_distance, lemma_distinct_slots};

verus! {

/// Every byte is an ASCII decimal digit.
pub open spec fn is_digits(bs: Seq<u8>) -> bool {
    forall|k: int| 0 <= k < bs.len() ==> 48 <= #[trigger] bs[k] <= 57
}

/// The digit values of ASCII digit bytes.
pub open spec fn digit_values(bs: Seq<u8>) -> Seq<u8> {
    Seq::new(bs.len(), |k: int| (bs[k] - 48) as u8)
}

/// The number written by the bytes of `s` from `start` to its end.
pub open spec fn value_from(s: Seq<u8>, start: int) -> nat {
    digits_value(digit_values(s.subrange(start, s.len() as int)))
}

/// The last `l` bytes of `s`, at most `N` of them, write a number without a
/// leading zero that the scanner `T` finds.
pub open spec fn finds<T: Data>(s: Seq<u8>, l: int) -> bool {
    &&& 1 <= l <= N
    &&& l <= s.len()
    &&& s[s.len() - l] != 48u8
    &&& value_from(s, s.len() - l) % T::modulus() == 0
    &&& T::accepts(value_from(s, s.len() - l))
}

/// How many `'0'` bytes follow one another in `bs` from index `i` on.
pub open spec fn zero_run(bs: Seq<u8>, i: int) -> nat
    decreases bs.len() - i,
{
    if 0 <= i < bs.len() && bs[i] == 48u8 {
        1 + zero_run(bs, i + 1)
    } else {
        0
    }
}

/// The bytes seen once the byte at index `k` of `bytes` has been taken after `s`.
pub open spec fn prefix_through(s: Seq<u8>, bytes: Seq<u8>, k: int) -> Seq<u8> {
    s + bytes.take(k + 1)
}

/// A number found in the stream.
#[derive(Clone, Copy, Debug, PartialEq, Eq)]
pub struct Found {
    /// Index, in the bytes handed over, of the last trailing zero counted
    /// (of the number's last digit when there are none).
    pub end: usize,
    /// Ring slot of the number's first digit.
    pub start: usize,
    /// Number of digits of the number.
    pub len: usize,
    /// Number of `'0'` bytes that follow it and were counted.
    pub zeros: usize,
}

/// What appending `bytes` to a task that has taken `seen` gives: the result
/// `r`, after which the task has taken `after`.
///
/// With nothing found, every byte is taken and no prefix ends in a number
/// the scanner finds.  Otherwise the result names the first byte, at index
/// `end - zeros`, after which a number is found; the bytes up to it are
/// taken, the number is the one at the lowest ring slot, and the zeros
/// counted after it are those that follow, up to `N` digits in all.
#[verifier::opaque]
pub open spec fn append_outcome<T: Data>(
    seen: Seq<u8>,
    bytes: Seq<u8>,
    r: Option<Found>,
    after: Seq<u8>,
) -> bool {
    match r {
        None => {
            &&& after == seen + bytes
            &&& forall|k: int, l: int|
                #![trigger finds::<T>(prefix_through(seen, bytes, k), l)]
                0 <= k < bytes.len() ==> !finds::<T>(prefix_through(seen, bytes, k), l)
        },
        Some(fd) => {
            let k = fd.end - fd.zeros;
            let s = prefix_through(seen, bytes, k);
            &&& 0 <= k <= fd.end < bytes.len()
            &&& after == s
            &&& finds::<T>(s, fd.len as int)
            &&& fd.start == (s.len() - fd.len) % (N as int)
            &&& forall|l: int| #[trigger] finds::<T>(s, l) ==> (s.len() - l) % (N as int) >= fd.start
            &&& forall|k2: int, l: int|
                #![trigger finds::<T>(prefix_through(seen, bytes, k2), l)]
                0 <= k2 < k ==> !finds::<T>(prefix_through(seen, bytes, k2), l)
            &&& fd.zeros == if zero_run(bytes, k + 1) < N - fd.len {
                zero_run(bytes, k + 1)
            } else {
                (N - fd.len) as nat
            }
        },
    }
}

proof fn lemma_digit_values_push(s: Seq<u8>, b: u8)
    ensures
        digit_values(s.push(b)) == digit_values(s).push((b - 48) as u8),
{
    assert(digit_values(s.push(b)) =~= digit_values(s).push((b - 48) as u8));
}

/// The value of the bytes from `start` grows by one digit when a byte is appended.
proof fn lemma_value_from_push(s: Seq<u8>, b: u8, start: int)
    requires
        0 <= start <= s.len(),
    ensures
        value_from(s.push(b), start) == value_from(s, start) * 10 + (b - 48) as u8,
{
    assert(s.push(b).subrange(start, s.len() + 1int) =~= s.subrange(start, s.len() as int).push(b));
    lemma_digit_values_push(s.subrange(start, s.len() as int), b);
    let d = digit_values(s.subrange(start, s.len() as int)).push((b - 48) as u8);
    assert(d.drop_last() =~= digit_values(s.subrange(start, s.len() as int)));
}

/// The lane of slot `p` starts afresh at the new position, or keeps its start.
proof fn lemma_slot_after_push(len: int, p: int)
    requires
        0 <= p < N,
        p <= len,
    ensures
        p == len % (N as int) ==> slot_position(len, p) == len,
        p != len % (N as int) ==> 1 <= len && slot_position(len, p) == slot_position(len - 1, p),
{
    let w = N as int;
    if p == len % w {
        lemma_fundamental_div_mod(len, w);
        lemma_slot_distance(len, len, p);
    } else {
        if p == len {
            lemma_small_mod(len as nat, w as nat);
        }
        assert(p <= len - 1);
        lemma_slot_position(len - 1, p);
        let j = slot_position(len - 1, p);
        if len - j == w {
            lemma_fundamental_div_mod(j, w);
            vstd::arithmetic::div_mod::lemma_fundamental_div_mod_converse(len, w, j / w + 1, p);
        }
        lemma_slot_distance(len, j, p);
    }
}

/// The number of digits from the lane's start to the end, as the task computes it
/// from the ring slot and the position of the next byte.
proof fn lemma_slot_length(count: int, p: int)
    requires
        0 <= p < N,
        p <= count - 1,
    ensures
        count - slot_position(count - 1, p) == if p < count % (N as int) {
            count % (N as int) - p
        } else {
            N - (p - count % (N as int))
        },
        1 <= count - slot_position(count - 1, p) <= N,
{
    let w = N as int;
    lemma_slot_position(count - 1, p);
    let j = slot_position(count - 1, p);
    lemma_fundamental_div_mod(count, w);
    lemma_fundamental_div_mod(j, w);
    let a = count / w;
    let b = j / w;
    let pos = count % w;
    assert(count - j == w * (a - b) + pos - p) by (nonlinear_arith)
        requires
            count == w * a + pos,
            j == w * b + p,
    ;
    if p < pos {
        assert(a - b == 0) by (nonlinear_arith)
            requires
                count - j == w * (a - b) + pos - p,
                1 <= count - j <= w,
                0 <= p < pos < w,
                w == 256,
        ;
    } else {
        assert(a - b == 1) by (nonlinear_arith)
            requires
                count - j == w * (a - b) + pos - p,
                1 <= count - j <= w,
                0 <= pos <= p < w,
                w == 256,
        ;
    }
}

/// A suffix of length `l` starts at the lane start of its ring slot.
proof fn lemma_suffix_slot(count: int, l: int)
    requires
        1 <= l <= N,
        l <= count,
    ensures
        (count - l) % (N as int) <= count - 1,
        slot_position(count - 1, (count - l) % (N as int)) == count - l,
{
    let w = N as int;
    let p = (count - l) % w;
    lemma_fundamental_div_mod(count - l, w);
    assert(p <= count - l) by {
        if p > count - l {
            assert((count - l) / w < 0 || p <= count - l);
            lemma_small_mod((count - l) as nat, w as nat);
        }
    }
    lemma_slot_distance(count - 1, count - l, p);
}

/// Ring slots advance with the positions they hold.
proof fn lemma_ring_offset(j: int, p: int, t: int)
    requires
        j >= 0,
        0 <= p < N,
        j % (N as int) == p,
        t >= 0,
    ensures
        (j + t) % (N as int) == (p + t) % (N as int),
{
    lemma_add_mod_noop(j, t, N as int);
    lemma_add_mod_noop(p, t, N as int);
    lemma_small_mod(p as nat, N as nat);
    vstd::arithmetic::div_mod::lemma_mod_bound(t, N as int);
}

/// A run of `'0'` bytes from `i` up to `j` is part of the run counted from `i`,
/// all of it when the run ends at `j`.
proof fn lemma_zero_run(bs: Seq<u8>, i: int, j: int)
    requires
        0 <= i <= j <= bs.len(),
        forall|t: int| i <= t < j ==> #[trigger] bs[t] == 48u8,
    ensures
        zero_run(bs, i) >= j - i,
        (j == bs.len() || bs[j] != 48u8) ==> zero_run(bs, i) == j - i,
    decreases j - i,
{
    if i < j {
        lemma_zero_run(bs, i + 1, j);
    }
}

/// A task that scans a stream of digit bytes with scanner `T`.
pub struct Task<T: Data> {
    deque: Vec<u8>,
    len: usize,
    f: T,
    k: u8,
    seen: Ghost<Seq<u8>>,
}

impl<T: Data> Task<T> {
    /// The bytes taken since the task was made or last cleared.
    pub closed spec fn seen(self) -> Seq<u8> {
        self.seen@
    }

    /// The number the task was made with.
    pub closed spec fn id(self) -> u8 {
        self.k
    }

    /// The scanner's lanes.
    pub closed spec fn scanner(self) -> T {
        self.f
    }

    /// The ring of the last `N` bytes taken.
    pub closed spec fn ring(self) -> Seq<u8> {
        self.deque@
    }

    /// The internal invariant: the ring holds the last `N` bytes taken, and
    /// the lane of each started slot holds the residue of the number written
    /// from that slot's latest position to the end.
    pub closed spec fn wf(self) -> bool {
        &&& self.f.wf()
        &&& self.deque@.len() == N
        &&& self.len == self.seen@.len()
        &&& is_digits(self.seen@)
        &&& forall|q: int|
            0 <= q < self.len && q >= self.len - N ==> #[trigger] self.deque@[q % (N as int)]
                == self.seen@[q]
        &&& forall|p: int|
            0 <= p < N && p < self.len ==> #[trigger] self.f.lane(p) == value_from(
                self.seen@,
                slot_position(self.len - 1, p),
            ) % T::modulus()
    }

    /// A task that has taken nothing.
    pub fn new(k: u8) -> (r: Self)
        ensures
            r.wf(),
            r.seen() == Seq::<u8>::empty(),
            r.id() == k,
    {
        let ghost empty: Seq<u8> = Seq::empty();
        Task { deque: vec![0u8; N], len: 0, f: T::new(), k, seen: Ghost(empty) }
    }

    /// Forgets the bytes taken and leaves the scanner and the ring as they
    /// are: a lane starts afresh when its position next comes round.
    pub fn clear(&mut self)
        requires
            old(self).wf(),
        ensures
            final(self).wf(),
            final(self).seen() == Seq::<u8>::empty(),
            final(self).id() == old(self).id(),
            final(self).scanner() == old(self).scanner(),
            final(self).ring() == old(self).ring(),
    {
        self.len = 0;
        let ghost empty: Seq<u8> = Seq::empty();
        self.seen = Ghost(empty);
    }

    /// The number the task was made with.
    pub fn k(&self) -> (r: u8)
        ensures
            r == self.id(),
    {
        self.k
    }

    /// Number of bytes taken since the task was made or last cleared.
    pub fn len(&self) -> (r: usize)
        requires
            self.wf(),
        ensures
            r == self.seen().len(),
    {
        self.len
    }

    /// The last `len` bytes taken, read from the ring starting at slot `start`.
    pub fn number(&self, start: usize, len: usize) -> (r: Vec<u8>)
        requires
            self.wf(),
            1 <= len <= N,
            len <= self.seen().len(),
            start == (self.seen().len() - len) % (N as int),
        ensures
            r@ == self.seen().subrange(self.seen().len() - len, self.seen().len() as int),
    {
        let ghost s = self.seen@;
        let ghost j = s.len() - len;
        proof {
            lemma_fundamental_div_mod(j, N as int);
        }
        let mut r: Vec<u8> = Vec::new();
        let mut t: usize = 0;
        while t < len
            invariant
                self.wf(),
                self.seen@ == s,
                0 <= t <= len,
                len <= N,
                start < N,
                j == s.len() - len,
                j >= 0,
                j % (N as int) == start,
                r@ =~= s.subrange(j, s.len() as int).take(t as int),
            decreases len - t,
        {
            proof {
                lemma_ring_offset(j, start as int, t as int);
                assert(self.deque@[(j + t) % (N as int)] == s[j + t]);
            }
            r.push(self.deque[(start + t) % N]);
            t += 1;
        }
        proof {
            assert(s.subrange(j, s.len() as int).take(len as int) =~= s.subrange(j, s.len() as int));
        }
        r
    }

    /// Takes one byte: the ring and every started lane take it.
    fn take_byte(&mut self, b: u8) -> (zs: Vec<u16>)
        requires
            old(self).wf(),
            48 <= b <= 57,
            old(self).seen().len() < usize::MAX,
        ensures
            final(self).wf(),
            final(self).seen() == old(self).seen().push(b),
            final(self).id() == old(self).id(),
            forall|k: int|
                0 <= k < zs@.len() ==> #[trigger] zs@[k] < N && zs@[k] <= old(self).seen().len()
                    && final(self).f.lane(zs@[k] as int) == 0,
            forall|a: int, b: int| 0 <= a < b < zs@.len() ==> zs@[a] < zs@[b],
            forall|p: int|
                0 <= p < N && p <= old(self).seen().len() && #[trigger] final(self).f.lane(p) == 0
                    ==> exists|k: int| 0 <= k < zs@.len() && zs@[k] == p,
    {
        let ghost s0 = self.seen@;
        let ghost f0 = self.f;
        let ghost d0 = self.deque@;
        let cur = self.len;
        self.deque.set(cur % N, b);
        let x = b - 48u8;
        let zs = self.f.push(x, cur);
        self.len = cur + 1;
        self.seen = Ghost(s0.push(b));
        proof {
            let s1 = self.seen@;
            let len = cur as int;
            assert forall|k: int| 0 <= k < s1.len() implies 48 <= #[trigger] s1[k] <= 57 by {
                if k < len {
                    assert(s1[k] == s0[k]);
                }
            }
            assert forall|q: int| 0 <= q < self.len && q >= self.len - N implies #[trigger] self.deque@[q
                % (N as int)] == self.seen@[q] by {
                if q < len {
                    lemma_distinct_slots(len, q);
                    assert(self.deque@[q % (N as int)] == d0[q % (N as int)]);
                }
            }
            assert forall|p: int| 0 <= p < N && p < self.len implies #[trigger] self.f.lane(p)
                == value_from(self.seen@, slot_position(self.len - 1, p)) % T::modulus() by {
                T::lemma_modulus();
                lemma_slot_after_push(len, p);
                assert(self.f.lane(p) == pushed_lane(f0.lane(p), p, x, len, T::modulus()));
                if p == len % (N as int) {
                    lemma_value_from_push(s0, b, len);
                    assert(s0.subrange(len, len) =~= Seq::<u8>::empty());
                    assert(digit_values(s0.subrange(len, len)) =~= Seq::<u8>::empty());
                } else {
                    let j = slot_position(len - 1, p);
                    lemma_slot_position(len - 1, p);
                    lemma_value_from_push(s0, b, j);
                    lemma_residue_step(value_from(s0, j), x as nat, T::modulus());
                }
            }
        }
        zs
    }

    /// Takes bytes until a number is found, and reports the first one.
    ///
    /// After each byte, the numbers of up to `N` digits that end at it are
    /// tried from the lowest ring slot up; the first without a leading zero
    /// that the scanner finds is reported, and the `'0'` bytes that follow it
    /// are counted, up to `N` digits in all.  Bytes after the number's last
    /// digit are not taken.
    pub fn append(&mut self, bytes: &[u8]) -> (r: Option<Found>)
        requires
            old(self).wf(),
            is_digits(bytes@),
            old(self).seen().len() + bytes@.len() < usize::MAX,
        ensures
            final(self).wf(),
            final(self).id() == old(self).id(),
            append_outcome::<T>(old(self).seen(), bytes@, r, final(self).seen()),
            match r {
                None => final(self).seen() == old(self).seen() + bytes@,
                Some(fd) => {
                    &&& final(self).seen() == prefix_through(old(self).seen(), bytes@, fd.end - fd.zeros)
                    &&& finds::<T>(final(self).seen(), fd.len as int)
                    &&& 1 <= fd.len <= N
                    &&& fd.len <= final(self).seen().len()
                    &&& fd.start == (final(self).seen().len() - fd.len) % (N as int)
                },
            },
    {
        proof {
            reveal(append_outcome);
        }
        let ghost s_start = self.seen@;
        let mut idx: usize = 0;
        while idx < bytes.len()
            invariant
                self.wf(),
                0 <= idx <= bytes.len(),
                self.seen@ == s_start + bytes@.take(idx as int),
                self.k == old(self).k,
                s_start == old(self).seen(),
                is_digits(bytes@),
                s_start.len() + bytes@.len() < usize::MAX,
                forall|k2: int, l: int|
                    #![trigger finds::<T>(prefix_through(s_start, bytes@, k2), l)]
                    0 <= k2 < idx ==> !finds::<T>(prefix_through(s_start, bytes@, k2), l),
            decreases bytes.len() - idx,
        {
            let b = bytes[idx];
            let ghost s0 = self.seen@;
            let zs = self.take_byte(b);
            let ghost s1 = self.seen@;
            proof {
                assert(s1 =~= prefix_through(s_start, bytes@, idx as int));
            }
            let count = self.len;
            let pos = count % N;
            let mut zi: usize = 0;
            while zi < zs.len()
                invariant
                    self.wf(),
                    self.seen@ == s1,
                    self.k == old(self).k,
                    count == s1.len(),
                    pos == count % N,
                    count >= 1,
                    0 <= idx < bytes.len(),
                    s1 == prefix_through(s_start, bytes@, idx as int),
                    forall|k: int|
                        0 <= k < zs@.len() ==> #[trigger] zs@[k] < N && zs@[k] <= count - 1
                            && self.f.lane(zs@[k] as int) == 0,
                    forall|a: int, b: int| 0 <= a < b < zs@.len() ==> zs@[a] < zs@[b],
                    forall|p: int|
                        0 <= p < N && p <= count - 1 && #[trigger] self.f.lane(p) == 0 ==> exists|k: int|
                            0 <= k < zs@.len() && zs@[k] == p,
                    0 <= zi <= zs@.len(),
                    s_start == old(self).seen(),
                    is_digits(bytes@),
                    forall|k2: int, l: int|
                        #![trigger finds::<T>(prefix_through(s_start, bytes@, k2), l)]
                        0 <= k2 < idx ==> !finds::<T>(prefix_through(s_start, bytes@, k2), l),
                    forall|z: int|
                        0 <= z < zi ==> !finds::<T>(
                            s1,
                            count - slot_position(count - 1, #[trigger] zs@[z] as int),
                        ),
                decreases zs@.len() - zi,
            {
                let i = zs[zi] as usize;
                let l = if i < pos {
                    pos - i
                } else {
                    N - (i - pos)
                };
                proof {
                    lemma_slot_length(count as int, i as int);
                    lemma_slot_position(count - 1, i as int);
                }
                let ghost j = slot_position(count - 1, i as int);
                if i < self.len && self.deque[i] != 48u8 {
                    let mut digits: Vec<u8> = Vec::new();
                    let mut t: usize = 0;
                    while t < l
                        invariant
                            self.wf(),
                            self.seen@ == s1,
                            count == s1.len(),
                            0 <= t <= l,
                            1 <= l <= N,
                            i < N,
                            j == count - l,
                            j >= 0,
                            j % (N as int) == i,
                            digits@ =~= digit_values(s1.subrange(j, count as int)).take(t as int),
                        decreases l - t,
                    {
                        proof {
                            lemma_ring_offset(j, i as int, t as int);
                            assert(self.deque@[(j + t) % (N as int)] == s1[j + t]);
                        }
                        digits.push(self.deque[(i + t) % N] - 48u8);
                        t += 1;
                    }
                    proof {
                        assert(digit_values(s1.subrange(j, count as int)).take(l as int) =~= digit_values(
                            s1.subrange(j, count as int),
                        ));
                        assert forall|t2: int| 0 <= t2 < digits@.len() implies #[trigger] digits@[t2]
                            < 10 by {
                            assert(48 <= s1[j + t2] <= 57);
                        }
                    }
                    if self.f.check(digits.as_slice()) {
                        let mut zeros: usize = 0;
                        let mut next: usize = idx + 1;
                        while next < bytes.len() && bytes[next] == 48u8 && l + zeros < N
                            invariant
                                idx < bytes.len(),
                                next <= bytes.len(),
                                next == idx + 1 + zeros,
                                l + zeros <= N,
                                forall|t2: int| idx + 1 <= t2 < next ==> #[trigger] bytes@[t2] == 48u8,
                            decreases bytes.len() - next,
                        {
                            zeros += 1;
                            next += 1;
                        }
                        proof {
                            lemma_zero_run(bytes@, idx + 1, next as int);
                            // The number found: lane zero, no leading zero, checked.
                            assert(i <= count - 1);
                            assert(self.f.lane(i as int) == 0);
                            assert(s1[j] == self.deque@[i as int]) by {
                                assert(j % (N as int) == i);
                            }
                            assert(finds::<T>(s1, l as int));
                            // No number at a lower slot.
                            assert forall|l2: int| #[trigger] finds::<T>(s1, l2) implies (s1.len()
                                - l2) % (N as int) >= i by {
                                lemma_suffix_slot(count as int, l2);
                                let p2 = (count - l2) % (N as int);
                                lemma_fundamental_div_mod(count - l2, N as int);
                                if p2 < i {
                                    assert(self.f.lane(p2) == 0);
                                    let z2 = choose|z2: int| 0 <= z2 < zs@.len() && zs@[z2] == p2;
                                    if z2 > zi as int {
                                        assert(zs@[zi as int] < zs@[z2]);
                                    }
                                    assert(z2 < zi as int);
                                    assert(!finds::<T>(s1, count - slot_position(count - 1, zs@[z2] as int)));
                                }
                            }
                        }
                        let fd = Found { end: idx + zeros, start: i, len: l, zeros };
                        proof {
                            reveal(append_outcome);
                            assert(prefix_through(s_start, bytes@, idx as int) == s1);
                        }
                        return Some(fd);
                    }
                }
                proof {
                    assert(!finds::<T>(s1, count - slot_position(count - 1, i as int))) by {
                        if finds::<T>(s1, l as int) {
                            assert(s1[j] == self.deque@[i as int]);
                        }
                    }
                }
                zi += 1;
            }
            proof {
                assert forall|l2: int| !#[trigger] finds::<T>(prefix_through(s_start, bytes@, idx as int), l2) by {
                    if finds::<T>(s1, l2) {
                        lemma_suffix_slot(count as int, l2);
                        let p2 = (count - l2) % (N as int);
                        lemma_fundamental_div_mod(count - l2, N as int);
                        assert(self.f.lane(p2) == 0);
                        let z2 = choose|z2: int| 0 <= z2 < zs@.len() && zs@[z2] == p2;
                        assert(!finds::<T>(s1, count - slot_position(count - 1, zs@[z2] as int)));
                    }
                }
                assert(self.seen@ =~= s_start + bytes@.take(idx + 1));
            }
            idx += 1;
        }
        proof {
            assert(bytes@.take(bytes@.len() as int) =~= bytes@);
        }
        None
    }
}

} // verus!
