//! A ring of the last values pushed, with a small direct-mapped index that
//! finds the nearest earlier occurrence of a value in the ring.
use vstd::prelude::*;
use vstd::arithmetic::div_mod::{lemma_fundamental_div_mod, lemma_fundamental_div_mod_converse};

verus! {

/// How many of the latest values the ring keeps.
pub const WINDOW: usize = 256;
/// Number of buckets of the index.
pub const HASH_SIZE: usize = 65536;

/// The bucket of a value.
pub open spec fn bucket_of(x: u128) -> int {
    x as int % (HASH_SIZE as int)
}

/// The latest position up to `i` whose value falls in bucket `h`; -1 when none does.
pub open spec fn last_in_bucket(hist: Seq<u128>, h: int, i: int) -> int
    decreases i + 1,
{
    if i < 0 {
        -1
    } else if bucket_of(hist[i]) == h {
        i
    } else {
        last_in_bucket(hist, h, i - 1)
    }
}

/// No value at a position in `(j, i]` falls in bucket `h`.
pub open spec fn bucket_quiet(hist: Seq<u128>, h: int, j: int, i: int) -> bool {
    forall|k: int| j < k <= i ==> bucket_of(#[trigger] hist[k]) != h
}

/// What pushing `x` after the values `hist` (position 0 first) returns: the
/// distance back to the latest position whose value shares `x`'s bucket,
/// when that value is `x` and still in the ring of the last `WINDOW`
/// positions; else nothing.
pub open spec fn push_result(hist: Seq<u128>, x: u128) -> Option<usize> {
    let n = hist.len() as int;
    let p = last_in_bucket(hist, bucket_of(x), n - 1);
    if p >= 0 && n - p < WINDOW && hist[p] == x {
        Some((n - p) as usize)
    } else {
        None
    }
}

/// `last_in_bucket` gives a position of the bucket, after which the bucket is quiet.
pub proof fn lemma_last_in_bucket(hist: Seq<u128>, h: int, i: int)
    requires
        i < hist.len(),
    ensures
        -1 <= last_in_bucket(hist, h, i) <= i || (i < -1 && last_in_bucket(hist, h, i) == -1),
        last_in_bucket(hist, h, i) >= 0 ==> bucket_of(hist[last_in_bucket(hist, h, i)]) == h,
        bucket_quiet(hist, h, last_in_bucket(hist, h, i), i),
    decreases i + 1,
{
    if i >= 0 && bucket_of(hist[i]) != h {
        lemma_last_in_bucket(hist, h, i - 1);
    }
}

/// `last_in_bucket` up to `i` reads only the values up to `i`.
proof fn lemma_last_in_bucket_prefix(a: Seq<u128>, b: Seq<u128>, h: int, i: int)
    requires
        i < a.len(),
        i < b.len(),
        forall|k: int| 0 <= k <= i ==> a[k] == b[k],
    ensures
        last_in_bucket(a, h, i) == last_in_bucket(b, h, i),
    decreases i + 1,
{
    if i >= 0 {
        lemma_last_in_bucket_prefix(a, b, h, i - 1);
    }
}

/// What `push_result` promises: a returned distance leads back to the
/// nearest earlier `x` in the ring; and the nearest earlier `x` in the ring
/// is found when no value of its bucket came after it.
pub proof fn lemma_push_result(hist: Seq<u128>, x: u128)
    ensures
        match push_result(hist, x) {
            Some(d) => {
                &&& 1 <= d < WINDOW
                &&& d <= hist.len()
                &&& hist[hist.len() - d] == x
                &&& forall|k: int| hist.len() - d < k < hist.len() ==> #[trigger] hist[k] != x
            },
            None => true,
        },
        forall|j: int|
            #![trigger bucket_quiet(hist, bucket_of(x), j, hist.len() - 1)]
            hist.len() - WINDOW < j < hist.len() && j >= 0 && hist[j] == x && bucket_quiet(
                hist,
                bucket_of(x),
                j,
                hist.len() - 1,
            ) ==> push_result(hist, x) == Some((hist.len() - j) as usize),
{
    let n = hist.len() as int;
    let h = bucket_of(x);
    lemma_last_in_bucket(hist, h, n - 1);
    let p = last_in_bucket(hist, h, n - 1);
    assert forall|j: int|
        n - WINDOW < j < n && j >= 0 && hist[j] == x && #[trigger] bucket_quiet(hist, h, j, n - 1)
        implies push_result(hist, x) == Some((n - j) as usize) by {
        if p < j {
            assert(bucket_of(hist[j]) == h);
        }
        if p > j {
            assert(bucket_of(hist[p]) == h);
        }
    }
}

/// The position, among the last `WINDOW` positions up to `i`, whose ring slot is `s`.
pub open spec fn slot_position(i: int, s: int) -> int {
    i - ((i - s) % (WINDOW as int))
}

/// The position that `slot_position` picks is one of the last `WINDOW`
/// positions up to `i`, and it sits in slot `s`.
pub proof fn lemma_slot_position(i: int, s: int)
    requires
        0 <= s < WINDOW,
        s <= i,
    ensures
        i - (WINDOW as int) < slot_position(i, s) <= i,
        slot_position(i, s) % (WINDOW as int) == s,
        slot_position(i, s) >= s,
{
    let w = WINDOW as int;
    lemma_fundamental_div_mod(i - s, w);
    let q = (i - s) / w;
    let j = slot_position(i, s);
    assert(j == s + w * q);
    assert(q >= 0) by {
        if q < 0 {
            assert(w * q <= -w) by (nonlinear_arith)
                requires
                    q < 0,
                    w == 256,
            ;
        }
    }
    lemma_fundamental_div_mod_converse(j, w, q, s);
}

/// For a position `j` in slot `s` among the last `WINDOW` up to `i`, the
/// distance from `i` back to slot `s` is `i - j`.
pub proof fn lemma_slot_distance(i: int, j: int, s: int)
    requires
        0 <= s < WINDOW,
        j % (WINDOW as int) == s,
        0 <= i - j < WINDOW,
    ensures
        (i - s) % (WINDOW as int) == i - j,
{
    let w = WINDOW as int;
    lemma_fundamental_div_mod(j, w);
    let q = j / w;
    lemma_fundamental_div_mod_converse(i - s, w, q, i - j);
}

/// Two positions less than `WINDOW` apart sit in different slots.
pub proof fn lemma_distinct_slots(a: int, b: int)
    requires
        0 < a - b < WINDOW,
        b >= 0,
    ensures
        a % (WINDOW as int) != b % (WINDOW as int),
{
    let w = WINDOW as int;
    lemma_fundamental_div_mod(a, w);
    lemma_fundamental_div_mod(b, w);
    let qa = a / w;
    let qb = b / w;
    if a % w == b % w {
        assert(a - b == w * (qa - qb)) by (nonlinear_arith)
            requires
                a == w * qa + a % w,
                b == w * qb + b % w,
                a % w == b % w,
        ;
        assert(false) by (nonlinear_arith)
            requires
                a - b == w * (qa - qb),
                0 < a - b < w,
        ;
    }
}

/// The last `WINDOW` values pushed, in a ring, with an index from bucket to
/// the latest position of a value in that bucket.
///
/// Position 0 holds the value 0 before anything is pushed.
pub struct WindowArray {
    i: usize,
    t: Vec<u128>,
    tset_i: Vec<u8>,
    tset_v: Vec<u128>,
    hist: Ghost<Seq<u128>>,
}

impl WindowArray {
    /// Number of values pushed so far.
    pub closed spec fn pos(self) -> nat {
        self.i as nat
    }

    /// Every value the window has held: position 0 is the initial zero, and
    /// position `k` the `k`-th value pushed.
    pub closed spec fn history(self) -> Seq<u128> {
        self.hist@
    }

    /// Bucket `h` records the value and ring slot of the latest position
    /// whose value falls in it, or zero for both while there is none.
    closed spec fn entry_ok(self, h: int) -> bool {
        let p = last_in_bucket(self.hist@, h, self.i as int);
        if p >= 0 {
            &&& self.tset_v@[h] == self.hist@[p]
            &&& self.tset_i@[h] as int == p % (WINDOW as int)
        } else {
            &&& self.tset_v@[h] == 0
            &&& self.tset_i@[h] == 0
        }
    }

    /// The internal invariant of the window.
    pub closed spec fn wf(self) -> bool {
        &&& self.t.len() == WINDOW
        &&& self.tset_i.len() == HASH_SIZE
        &&& self.tset_v.len() == HASH_SIZE
        &&& self.hist@.len() == self.i + 1
        &&& self.hist@[0] == 0
        &&& forall|k: int|
            0 <= k <= self.i && k > self.i - WINDOW ==> #[trigger] self.t@[k % (WINDOW as int)]
                == self.hist@[k]
        &&& forall|h: int| 0 <= h < HASH_SIZE ==> #[trigger] self.entry_ok(h)
    }

    /// Pushes `x` and returns the distance back to the nearest earlier
    /// position holding `x` among the last `WINDOW`, as the index knows it.
    ///
    /// A returned distance `d` is in `1..WINDOW`, the value `d` positions
    /// back is `x`, and no value in between is `x`.  The nearest earlier `x`
    /// in the ring is found unless a value sharing its bucket came after it:
    /// the index keeps one position per bucket.
    pub fn push(&mut self, x: u128) -> (r: Option<usize>)
        requires
            old(self).wf(),
            old(self).pos() < usize::MAX,
        ensures
            final(self).wf(),
            final(self).pos() == old(self).pos() + 1,
            final(self).history() == old(self).history().push(x),
            r == push_result(old(self).history(), x),
            match r {
                Some(d) => {
                    &&& 1 <= d < WINDOW
                    &&& d <= old(self).pos() + 1
                    &&& final(self).history()[final(self).pos() - d] == x
                    &&& forall|k: int|
                        final(self).pos() - d < k < final(self).pos()
                            ==> #[trigger] final(self).history()[k] != x
                },
                None => true,
            },
            forall|j: int|
                #![trigger bucket_quiet(old(self).history(), bucket_of(x), j, old(self).pos() as int)]
                final(self).pos() - WINDOW < j < final(self).pos() && j >= 0 && old(self).history()[j]
                    == x && bucket_quiet(old(self).history(), bucket_of(x), j, old(self).pos() as int)
                    ==> r == Some((final(self).pos() - j) as usize),
    {
        let ghost o = *self;
        let h = (x % (HASH_SIZE as u128)) as usize;
        proof {
            assert(o.entry_ok(h as int));
            lemma_last_in_bucket(o.hist@, h as int, o.i as int);
            let p = last_in_bucket(o.hist@, h as int, o.i as int);
            if p >= 0 {
                vstd::arithmetic::div_mod::lemma_mod_decreases(p as nat, WINDOW as nat);
            }
        }
        self.i = self.i + 1;
        let slot = self.i % WINDOW;
        let hashi = self.tset_i[h];
        let hashv = self.tset_v[h];
        let len = if hashv == x && (hashi as usize) != slot && self.t[hashi as usize] == x {
            Some((self.i - hashi as usize) % WINDOW)
        } else {
            None
        };
        self.t.set(slot, x);
        self.tset_i.set(h, slot as u8);
        self.tset_v.set(h, x);
        self.hist = Ghost(self.hist@.push(x));
        proof {
            self.lemma_push_invariant(o, x, len);
            lemma_push_result(o.hist@, x);
            assert(self.hist@ == o.hist@.push(x));
        }
        len
    }

    proof fn lemma_push_invariant(self, o: Self, x: u128, len: Option<usize>)
        requires
            o.wf(),
            o.i < usize::MAX,
            self.i == o.i + 1,
            self.t@ == o.t@.update((self.i as int) % (WINDOW as int), x),
            self.hist@ == o.hist@.push(x),
            ({
                let h = bucket_of(x);
                let s = o.tset_i@[h] as int;
                len == if o.tset_v@[h] == x && s != (self.i as int) % (WINDOW as int) && o.t@[s] == x {
                    Some(((self.i - s) % (WINDOW as int)) as usize)
                } else {
                    None::<usize>
                }
            }),
            self.tset_v@ == o.tset_v@.update(bucket_of(x), x),
            self.tset_i@ == o.tset_i@.update(bucket_of(x), ((self.i as int) % (WINDOW as int)) as u8),
        ensures
            self.wf(),
            len == push_result(o.hist@, x),
    {
        let w = WINDOW as int;
        let i2 = self.i as int;
        let n = o.i as int;
        let h = bucket_of(x);
        // The ring.
        assert forall|k: int| 0 <= k <= i2 && k > i2 - w implies #[trigger] self.t@[k % w]
            == self.hist@[k] by {
            if k < i2 {
                lemma_distinct_slots(i2, k);
            }
        }
        // Buckets.
        assert forall|hh: int| 0 <= hh < HASH_SIZE implies #[trigger] self.entry_ok(hh) by {
            assert(o.entry_ok(hh));
            assert forall|k: int| 0 <= k <= n implies self.hist@[k] == o.hist@[k] by {}
            lemma_last_in_bucket_prefix(self.hist@, o.hist@, hh, n);
            lemma_last_in_bucket(o.hist@, hh, n);
            assert(self.hist@[i2] == x);
            if hh == h {
                assert(last_in_bucket(self.hist@, hh, i2) == i2);
                assert(self.tset_v@[hh] == x);
                assert(self.tset_i@[hh] as int == i2 % w);
            } else {
                assert(last_in_bucket(self.hist@, hh, i2) == last_in_bucket(self.hist@, hh, n));
                assert(self.tset_v@[hh] == o.tset_v@[hh]);
                assert(self.tset_i@[hh] == o.tset_i@[hh]);
            }
        }
        // The result.
        assert(o.entry_ok(h));
        lemma_last_in_bucket(o.hist@, h, n);
        let p = last_in_bucket(o.hist@, h, n);
        if p < 0 {
            if o.tset_v@[h] == x {
                assert(bucket_of(o.hist@[0]) == h);
            }
        } else {
            let s = p % w;
            vstd::arithmetic::div_mod::lemma_mod_decreases(p as nat, w as nat);
            assert(o.tset_i@[h] as int == s);
            if o.hist@[p] == x {
                lemma_slot_position(n, s);
                let q = slot_position(n, s);
                assert(o.t@[q % w] == o.hist@[q]);
                if i2 - p < w {
                    lemma_slot_distance(n, p, s);
                    lemma_distinct_slots(i2, p);
                    lemma_slot_distance(i2, p, s);
                } else if q == p {
                    vstd::arithmetic::div_mod::lemma_fundamental_div_mod_converse(i2, w, p / w + 1, s);
                    vstd::arithmetic::div_mod::lemma_fundamental_div_mod(p, w);
                } else {
                    assert(q > p);
                    if o.t@[s] == x {
                        assert(bucket_of(o.hist@[q]) == h);
                    }
                }
            }
        }
    }

    /// The history has one entry per position, starting from the initial zero.
    pub proof fn lemma_history(self)
        requires
            self.wf(),
        ensures
            self.history().len() == self.pos() + 1,
            self.history()[0] == 0,
    {
    }

    /// The value pushed last (the initial zero before any push).
    pub fn last(&self) -> (r: u128)
        requires
            self.wf(),
        ensures
            r == self.history()[self.pos() as int],
    {
        self.t[self.i % WINDOW]
    }

    /// A window holding only the initial zero at position 0.
    pub fn new() -> (r: Self)
        ensures
            r.wf(),
            r.pos() == 0,
            r.history() == seq![0u128],
    {
        let ghost h0: Seq<u128> = seq![0u128];
        let r = WindowArray {
            i: 0,
            t: vec![0u128; WINDOW],
            tset_i: vec![0u8; HASH_SIZE],
            tset_v: vec![0u128; HASH_SIZE],
            hist: Ghost(h0),
        };
        proof {
            assert forall|h: int| 0 <= h < HASH_SIZE implies #[trigger] r.entry_ok(h) by {
                assert(r.tset_v@[h] == 0 && r.tset_i@[h] == 0);
                assert(last_in_bucket(h0, h, -1) == -1);
            }
            assert forall|k: int| 0 <= k <= r.i && k > r.i - WINDOW implies #[trigger] r.t@[k
                % (WINDOW as int)] == r.hist@[k] by {
                assert(k == 0);
            }
        }
        r
    }
}

} // verus!
