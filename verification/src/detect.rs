//! Detectors that watch a stream of decimal digits and report when the digits
//! just read end a number divisible by a fixed modulus.
//!
//! Each detector keeps, for every prefix of the stream, its residue (see
//! `residue`), so a suffix is a multiple exactly when the residue repeats.
//! Rows of `x * R^k mod M` are tabulated ahead for the next `PRE_LEN` digits.
use vstd::prelude::*;
use vstd::arithmetic::div_mod::{lemma_add_mod_noop, lemma_mul_mod_noop_left, lemma_small_mod};
use crate::residue::{
    power,
    digits_value,
    residue,
    inverse_of_ten,
    lemma_equal_residues_divisible,
    lemma_divisible_equal_residues,
    lemma_residue_push,
    lemma_residue_bound,
};
use crate::window::{WindowArray, WINDOW, bucket_of, bucket_quiet, push_result, lemma_push_result};

verus! {

/// Length of the digit window.
pub const N: usize = 256;
/// First modulus: 2 * 7 * 11 * 887 * 6143 * 24097.
pub const M1: u64 = 20220311122858;
/// The factor 7 * 887 * 24097 of `M1`.
pub const M1_1: u32 = 7 * 887 * 24097;
/// The factor 2 * 11 * 6143 of `M1`.
pub const M1_2: u32 = 2 * 11 * 6143;
/// Second modulus, a prime.
pub const M2: u128 = 104648257118348370704723401;
/// First prime factor of the third modulus.
pub const M3_1: u64 = 500000000000000221;
/// Second prime factor of the third modulus.
pub const M3_2: u64 = 500000000000000231;
/// Third prime factor of the third modulus.
pub const M3_3: u64 = 500000000000000243;
/// The inverse of ten modulo `M1_1`.
pub const M1_R: u64 = 44885482;
/// The inverse of ten modulo `M2`.
pub const M2_R: u128 = 94183431406513533634251061;
/// The inverse of ten modulo `M3_1`.
pub const M3_R: u64 = 450000000000000199;
/// 3^16, the part of the fourth modulus that is tracked.
pub const M4_1: u32 = 43046721;
/// The inverse of ten modulo `M4_1`.
pub const M4_R: u64 = 38742049;
/// How many digits a table of powers covers before it must be prepared again.
pub const PRE_LEN: usize = 400;

/// `n % d` for a positive `d`.
pub fn u128_mod_u128(n: u128, d: u128) -> (r: u128)
    requires
        d > 0,
    ensures
        r == n % d,
{
    n % d
}

/// The last `l` digits of `ds` write a multiple of `m`, and no shorter
/// nonempty suffix does.
pub open spec fn shortest_multiple_suffix(ds: Seq<u8>, l: int, m: nat) -> bool {
    &&& 1 <= l <= ds.len()
    &&& digits_value(ds.subrange(ds.len() - l, ds.len() as int)) % m == 0
    &&& forall|l2: int|
        1 <= l2 < l ==> #[trigger] digits_value(ds.subrange(ds.len() - l2, ds.len() as int)) % m
            != 0
}

/// Residues of every prefix of `ds`, in order, make up `hist`.
pub open spec fn history_matches(hist: Seq<u128>, ds: Seq<u8>, r: nat, m: nat) -> bool {
    &&& hist.len() == ds.len() + 1
    &&& forall|k: int| 0 <= k <= ds.len() ==> #[trigger] hist[k] == residue(ds.take(k), r, m)
}

/// The residues of every prefix of `ds`, shortest first.
pub open spec fn prefix_residues(ds: Seq<u8>, r: nat, m: nat) -> Seq<u128> {
    Seq::new(ds.len() + 1, |k: int| residue(ds.take(k), r, m) as u128)
}

/// A row of the table for exponent `e`: entry `x` is `x * r^e mod m`.
pub open spec fn row_matches_u32(row: [u32; 10], e: nat, r: nat, m: nat) -> bool {
    forall|x: int| 0 <= x < 10 ==> #[trigger] row[x] == (x as nat * power(r, e)) % m
}

/// A row of the table for exponent `e`: entry `x` is `x * r^e mod m`.
pub open spec fn row_matches_u64(row: [u64; 10], e: nat, r: nat, m: nat) -> bool {
    forall|x: int| 0 <= x < 10 ==> #[trigger] row[x] == (x as nat * power(r, e)) % m
}

/// A row of the table for exponent `e`: entry `x` is `x * r^e mod m`.
pub open spec fn row_matches_u128(row: [u128; 10], e: nat, r: nat, m: nat) -> bool {
    forall|x: int| 0 <= x < 10 ==> #[trigger] row[x] == (x as nat * power(r, e)) % m
}

/// When the residue repeats `l` positions back and nowhere in between, the last
/// `l` digits are the shortest suffix that is a multiple of `m`.
pub proof fn lemma_repeat_is_shortest(hist: Seq<u128>, ds: Seq<u8>, l: int, r: nat, m: nat)
    requires
        inverse_of_ten(r, m),
        history_matches(hist, ds, r, m),
        1 <= l <= ds.len(),
        hist[ds.len() - l] == hist[ds.len() as int],
        forall|k: int| ds.len() - l < k < ds.len() ==> #[trigger] hist[k] != hist[ds.len() as int],
    ensures
        shortest_multiple_suffix(ds, l, m),
{
    let n = ds.len() as int;
    assert(ds.take(n) =~= ds);
    assert(hist[n] == residue(ds, r, m));
    assert(hist[n - l] == residue(ds.take(n - l), r, m));
    lemma_equal_residues_divisible(ds, (n - l) as nat, r, m);
    assert(ds.skip(n - l) =~= ds.subrange(n - l, n));
    assert forall|l2: int| 1 <= l2 < l implies #[trigger] digits_value(
        ds.subrange(n - l2, n),
    ) % m != 0 by {
        if digits_value(ds.subrange(n - l2, n)) % m == 0 {
            assert(ds.skip(n - l2) =~= ds.subrange(n - l2, n));
            lemma_divisible_equal_residues(ds, (n - l2) as nat, r, m);
            assert(hist[n - l2] == residue(ds.take(n - l2), r, m));
        }
    }
}

/// Conversely, when the last `l` digits are the shortest suffix that is a
/// multiple of `m`, the residue `l` positions back is the nearest earlier
/// one equal to the current residue.
pub proof fn lemma_shortest_is_nearest(hist: Seq<u128>, ds: Seq<u8>, l: int, r: nat, m: nat)
    requires
        inverse_of_ten(r, m),
        history_matches(hist, ds, r, m),
        shortest_multiple_suffix(ds, l, m),
    ensures
        hist[ds.len() - l] == hist[ds.len() as int],
        forall|k: int| ds.len() - l < k < ds.len() ==> #[trigger] hist[k] != hist[ds.len() as int],
{
    let n = ds.len() as int;
    assert(ds.take(n) =~= ds);
    assert(ds.skip(n - l) =~= ds.subrange(n - l, n));
    lemma_divisible_equal_residues(ds, (n - l) as nat, r, m);
    assert(hist[n] == residue(ds, r, m));
    assert(hist[n - l] == residue(ds.take(n - l), r, m));
    assert forall|k: int| n - l < k < n implies #[trigger] hist[k] != hist[n] by {
        if hist[k] == hist[n] {
            assert(hist[k] == residue(ds.take(k), r, m));
            lemma_equal_residues_divisible(ds, k as nat, r, m);
            assert(ds.skip(k) =~= ds.subrange(n - (n - k), n));
            assert(digits_value(ds.subrange(n - (n - k), n)) % m != 0);
        }
    }
}

/// One digit pushed onto a detector whose residues match its digits: the
/// residues still match, a distance the window returns on the new residue
/// is the shortest multiple suffix, and that suffix is found whenever the
/// index still knows the residue it repeats.
proof fn lemma_push_aligned(
    h0: Seq<u128>,
    h1: Seq<u128>,
    ds: Seq<u8>,
    x: u8,
    r: nat,
    m: nat,
    t1: u128,
    len: Option<usize>,
)
    requires
        inverse_of_ten(r, m),
        history_matches(h0, ds, r, m),
        t1 == residue(ds.push(x), r, m),
        h1 == h0.push(t1),
        len == push_result(h0, t1),
    ensures
        history_matches(h1, ds.push(x), r, m),
        match len {
            Some(l) => shortest_multiple_suffix(ds.push(x), l as int, m),
            None => true,
        },
        forall|l: int|
            #![trigger shortest_multiple_suffix(ds.push(x), l, m)]
            shortest_multiple_suffix(ds.push(x), l, m) && l < N && bucket_quiet(
                h0,
                bucket_of(t1),
                ds.len() + 1 - l,
                ds.len() as int,
            ) ==> len == Some(l as usize),
{
    let d1 = ds.push(x);
    assert forall|k: int| 0 <= k <= d1.len() implies #[trigger] h1[k] == residue(d1.take(k), r, m) by {
        if k < d1.len() {
            assert(d1.take(k) =~= ds.take(k));
        } else {
            assert(d1.take(k) =~= d1);
        }
    }
    lemma_push_result(h0, t1);
    if len is Some {
        lemma_repeat_is_shortest(h1, d1, len.unwrap() as int, r, m);
    }
    assert forall|l: int|
        #![trigger shortest_multiple_suffix(d1, l, m)]
        shortest_multiple_suffix(d1, l, m) && l < N && bucket_quiet(h0, bucket_of(t1), ds.len() + 1
            - l, ds.len() as int) implies len == Some(l as usize) by {
        lemma_shortest_is_nearest(h1, d1, l, r, m);
        assert(h1[ds.len() + 1 - l] == h0[ds.len() + 1 - l]);
    }
}

/// One more table row: multiplying every entry by `r` moves the exponent up by one.
pub proof fn lemma_row_step(x: nat, e: nat, r: nat, m: nat, v: nat)
    requires
        m > 0,
        v == (x * power(r, e)) % m,
    ensures
        (v * r) % m == (x * power(r, e + 1)) % m,
{
    lemma_mul_mod_noop_left((x * power(r, e)) as int, r as int, m as int);
    assert((x * power(r, e)) * r == x * power(r, e + 1)) by (nonlinear_arith)
        requires
            power(r, e + 1) == r * power(r, e),
    ;
}

/// One more digit: the next residue from the last one and the tabulated `x * r^n`.
pub proof fn lemma_next_residue(ds: Seq<u8>, x: u8, r: nat, m: nat, t0: nat, entry: nat, t1: nat)
    requires
        m > 0,
        t0 == residue(ds, r, m),
        entry == (x as nat * power(r, ds.len() + 1)) % m,
        t1 == (t0 + entry) % m,
    ensures
        t1 == residue(ds.push(x), r, m),
{
    lemma_residue_push(ds, x, r, m);
    lemma_add_mod_noop(t0 as int, (x as nat * power(r, ds.len() + 1)) as int, m as int);
    lemma_residue_bound(ds, r, m);
    lemma_small_mod(t0, m);
}

/// A detector of multiples of a fixed modulus in a stream of decimal digits.
pub trait Data: Sized {
    /// The internal invariant.
    spec fn wf(&self) -> bool;

    /// The digits pushed so far.
    spec fn digits(&self) -> Seq<u8>;

    /// How many more digits may be pushed before `prepare` must run.
    spec fn room(&self) -> nat;

    /// What pushing the digit `x` next reports.
    spec fn report(&self, x: u8) -> Option<usize>;

    /// The window of residues and its index.
    spec fn window(&self) -> WindowArray;

    /// Pushes one digit; a returned length `l` reports that the last `l`
    /// digits form a number the detector was built to find.
    fn push(&mut self, x: u8) -> (r: Option<usize>)
        requires
            old(self).wf(),
            x < 10,
            old(self).room() > 0,
            old(self).digits().len() < usize::MAX,
        ensures
            final(self).wf(),
            final(self).digits() == old(self).digits().push(x),
            final(self).room() == old(self).room() - 1,
            r == old(self).report(x),
            match r {
                Some(l) => 1 <= l <= final(self).digits().len() && l < N,
                None => true,
            },
    ;

    /// Tabulates the powers for the next `PRE_LEN - 1` digits.
    fn prepare(&mut self)
        requires
            old(self).wf(),
        ensures
            final(self).wf(),
            final(self).digits() == old(self).digits(),
            final(self).room() == PRE_LEN - 1,
            final(self).window() == old(self).window(),
    ;
}

// ---------------------------------------------------------------------------
// M1

/// `x * M1_R mod M1_1`, computed in 64 bits.
fn m1_mul_r(x: u32) -> (r: u32)
    requires
        x < M1_1,
    ensures
        r == (x as nat * M1_R as nat) % M1_1 as nat,
        r < M1_1,
{
    (x as u64 * M1_R % M1_1 as u64) as u32
}

proof fn lemma_m1_inverse()
    ensures
        inverse_of_ten(M1_R as nat, M1_1 as nat),
{
    vstd::arithmetic::div_mod::lemma_fundamental_div_mod_converse(
        10 * M1_R as int,
        M1_1 as int,
        3,
        1,
    );
}

/// Detects numbers divisible by `M1_1` that end in an even digit, at least 14 digits long.
pub struct M1Data {
    i: usize,
    window: WindowArray,
    pre_start: usize,
    rtable: Vec<[u32; 10]>,
    ds: Ghost<Seq<u8>>,
}

impl M1Data {
    /// Number of digits pushed.
    pub closed spec fn pos(self) -> int {
        self.i as int
    }

    /// The position whose exponent the first table row holds.
    pub closed spec fn table_start(self) -> int {
        self.pre_start as int
    }

    /// The table rows: row `j` is meant to hold `x * R^(table_start + j)`.
    pub closed spec fn rows(self) -> Seq<[u32; 10]> {
        self.rtable@
    }

    /// The residues remembered: position `k` holds the residue after `k` digits.
    pub closed spec fn history(self) -> Seq<u128> {
        self.window.history()
    }

    /// Row `j` of the table holds `x * M1_R^(table_start + j) mod M1_1`.
    pub open spec fn table_aligned(self) -> bool {
        forall|j: int|
            0 <= j < PRE_LEN ==> row_matches_u32(
                #[trigger] self.rows()[j],
                (self.table_start() + j) as nat,
                M1_R as nat,
                M1_1 as nat,
            )
    }

    /// The residues remembered and the table both match the digits pushed.
    pub open spec fn aligned(self) -> bool {
        &&& self.table_aligned()
        &&& history_matches(self.history(), self.digits(), M1_R as nat, M1_1 as nat)
    }

    /// The row that the next `prepare` starts from is the one for the current position.
    pub open spec fn start_row_aligned(self) -> bool {
        row_matches_u32(
            self.rows()[self.pos() - self.table_start()],
            self.pos() as nat,
            M1_R as nat,
            M1_1 as nat,
        )
    }

    /// The residue the next push of `x` computes.
    pub open spec fn next_residue(self, x: u8) -> u128 {
        ((self.history()[self.pos()] + self.rows()[self.pos() + 1 - self.table_start()][x as int])
            % (M1_1 as int)) as u128
    }

    /// What the window reports when the next residue is pushed.
    pub open spec fn window_result(self, x: u8) -> Option<usize> {
        push_result(self.history(), self.next_residue(x))
    }

    /// The index still knows the residue `l` digits back: no residue of
    /// the next residue's bucket has come since that position.
    pub open spec fn index_holds(self, x: u8, l: int) -> bool {
        bucket_quiet(self.history(), bucket_of(self.next_residue(x)), self.pos() + 1 - l, self.pos())
    }

    /// What the invariant says of the accessors.
    pub proof fn lemma_shape(self)
        requires
            self.wf(),
        ensures
            self.pos() == self.digits().len(),
            self.history().len() == self.pos() + 1,
            0 <= self.pos() - self.table_start() < PRE_LEN,
            self.rows().len() == PRE_LEN,
            self.room() == PRE_LEN - 1 - (self.pos() - self.table_start()),
    {
        self.window.lemma_history();
    }

    /// On an aligned detector with room left, the next residue is the
    /// residue of the digits with `x` pushed.
    pub proof fn lemma_next_residue_of(self, x: u8)
        requires
            self.wf(),
            self.aligned(),
            self.room() > 0,
            x < 10,
        ensures
            self.next_residue(x) as nat == residue(self.digits().push(x), M1_R as nat, M1_1 as nat),
    {
        let ds = self.ds@;
        assert(ds.take(ds.len() as int) =~= ds);
        let t0 = self.window.history()[self.i as int];
        let e = self.rtable@[self.i + 1 - self.pre_start][x as int];
        let jj = self.i + 1 - self.pre_start;
        assert(row_matches_u32(self.rows()[jj], (self.table_start() + jj) as nat, M1_R as nat, M1_1 as nat));
        lemma_next_residue(ds, x, M1_R as nat, M1_1 as nat, t0 as nat, e as nat, ((t0 + e) % (M1_1 as int)) as nat);
    }

    /// On an aligned detector with room left, what the window reports on
    /// the next digit depends on the digits pushed alone, whatever the table
    /// start: so `prepare` changes no later result.
    pub proof fn lemma_window_result_of_digits(self, x: u8)
        requires
            self.wf(),
            self.aligned(),
            self.room() > 0,
            x < 10,
        ensures
            self.window_result(x) == push_result(
                prefix_residues(self.digits(), M1_R as nat, M1_1 as nat),
                residue(self.digits().push(x), M1_R as nat, M1_1 as nat) as u128,
            ),
    {
        self.lemma_next_residue_of(x);
        self.window.lemma_history();
        assert(self.history() =~= prefix_residues(self.digits(), M1_R as nat, M1_1 as nat));
    }

    /// What an aligned detector that has read `ds` reports when `x` comes next.
    pub open spec fn report_of_digits(ds: Seq<u8>, x: u8) -> Option<usize> {
        match push_result(
            prefix_residues(ds, M1_R as nat, M1_1 as nat),
            residue(ds.push(x), M1_R as nat, M1_1 as nat) as u128,
        ) {
            Some(l) => if l >= 14 && x != 0 && x % 2 == 0 {
                Some(l)
            } else {
                None
            },
            None => None,
        }
    }

    /// What an aligned detector that has read `ds` reports on each digit of
    /// `more`, pushed in turn.
    pub open spec fn reports_of_digits(ds: Seq<u8>, more: Seq<u8>) -> Seq<Option<usize>>
        decreases more.len(),
    {
        if more.len() == 0 {
            Seq::empty()
        } else {
            Self::reports_of_digits(ds, more.drop_last()).push(
                Self::report_of_digits(ds + more.drop_last(), more.last()),
            )
        }
    }

    /// Pushes the digits of `more` in turn and returns each report.
    ///
    /// The reports depend on the digits read before and on `more` alone, not
    /// on where the table starts: so `prepare` changes no later report.
    pub fn push_all(&mut self, more: &[u8]) -> (r: Vec<Option<usize>>)
        requires
            old(self).wf(),
            old(self).aligned(),
            more@.len() <= old(self).room(),
            old(self).digits().len() + more@.len() < usize::MAX,
            forall|k: int| 0 <= k < more@.len() ==> #[trigger] more@[k] < 10,
        ensures
            final(self).wf(),
            final(self).aligned(),
            final(self).digits() == old(self).digits() + more@,
            final(self).room() == old(self).room() - more@.len(),
            r@ == Self::reports_of_digits(old(self).digits(), more@),
    {
        let ghost d0 = self.digits();
        let ghost room0 = self.room();
        let mut r: Vec<Option<usize>> = Vec::new();
        let mut k: usize = 0;
        proof {
            assert(more@.take(0) =~= Seq::<u8>::empty());
            assert(d0 + more@.take(0) =~= d0);
        }
        while k < more.len()
            invariant
                self.wf(),
                self.aligned(),
                k <= more@.len(),
                more@.len() <= room0,
                d0.len() + more@.len() < usize::MAX,
                forall|j: int| 0 <= j < more@.len() ==> #[trigger] more@[j] < 10,
                self.digits() == d0 + more@.take(k as int),
                self.room() == room0 - k,
                r@ == Self::reports_of_digits(d0, more@.take(k as int)),
            decreases more@.len() - k,
        {
            let x = more[k];
            let ghost before = *self;
            let v = self.push(x);
            r.push(v);
            proof {
                let t = more@.take(k + 1);
                assert(t.drop_last() =~= more@.take(k as int));
                assert(t.last() == x);
                assert(d0 + t =~= (d0 + more@.take(k as int)).push(x));
            }
            k += 1;
        }
        proof {
            assert(more@.take(more@.len() as int) =~= more@);
        }
        r
    }

    /// What an aligned detector with room left reports on the digit `x`:
    /// a length `l` only when the last `l` digits, `x` included, are the
    /// shortest suffix that is a multiple of `M1_1`, with `l >= 14 && x != 0 && x % 2 == 0`; and every
    /// such shortest suffix below `N` digits that the index still knows.
    pub proof fn lemma_report_law(self, x: u8)
        requires
            self.wf(),
            self.aligned(),
            self.room() > 0,
            x < 10,
        ensures
            match self.report(x) {
                Some(l) => {
                    &&& l >= 14 && x != 0 && x % 2 == 0
                    &&& shortest_multiple_suffix(self.digits().push(x), l as int, M1_1 as nat)
                },
                None => true,
            },
            forall|l: int|
                #![trigger shortest_multiple_suffix(self.digits().push(x), l, M1_1 as nat)]
                shortest_multiple_suffix(self.digits().push(x), l, M1_1 as nat) && 14 <= l < N
                    && x != 0 && x % 2 == 0 && self.index_holds(x, l) ==> self.report(x) == Some(l as usize),
    {
        lemma_m1_inverse();
        self.lemma_next_residue_of(x);
        self.lemma_shape();
        let t1 = self.next_residue(x);
        lemma_push_aligned(
            self.history(),
            self.history().push(t1),
            self.digits(),
            x,
            M1_R as nat,
            M1_1 as nat,
            t1,
            push_result(self.history(), t1),
        );
    }

    /// Sets the table's start to the current position without recomputing it.
    ///
    /// Used to time pushes alone: the rows and the window are left as they
    /// are, so the table no longer matches the digits.
    pub fn prepare_nop(&mut self)
        requires
            old(self).wf(),
        ensures
            final(self).wf(),
            final(self).digits() == old(self).digits(),
            final(self).room() == PRE_LEN - 1,
            final(self).pos() == old(self).pos(),
            final(self).table_start() == old(self).pos(),
            final(self).rows() == old(self).rows(),
            final(self).window() == old(self).window(),
            final(self).history() == old(self).history(),
    {
        self.pre_start = self.i;
    }
}

impl Data for M1Data {
    closed spec fn wf(&self) -> bool {
        &&& self.window.wf()
        &&& self.window.pos() == self.i
        &&& self.ds@.len() == self.i
        &&& self.pre_start <= self.i
        &&& self.i - self.pre_start < PRE_LEN
        &&& self.rtable@.len() == PRE_LEN
        &&& forall|j: int, x: int|
            0 <= j < PRE_LEN && 0 <= x < 10 ==> #[trigger] self.rtable@[j][x] < M1_1
        &&& forall|k: int| 0 <= k <= self.i ==> #[trigger] self.window.history()[k] < M1_1
    }

    closed spec fn digits(&self) -> Seq<u8> {
        self.ds@
    }

    closed spec fn room(&self) -> nat {
        (PRE_LEN - 1 - (self.i - self.pre_start)) as nat
    }

    open spec fn report(&self, x: u8) -> Option<usize> {
        match self.window_result(x) {
            Some(l) => if l >= 14 && x != 0 && x % 2 == 0 {
                Some(l)
            } else {
                None
            },
            None => None,
        }
    }

    closed spec fn window(&self) -> WindowArray {
        self.window
    }

    /// Pushes a digit and reports the length of the shortest suffix divisible
    /// by `M1_1` when it is at least 14 digits and the digit is even and nonzero.
    fn push(&mut self, x: u8) -> (r: Option<usize>)
        ensures
            old(self).aligned() ==> final(self).aligned(),
            old(self).aligned() ==> match r {
                Some(l) => {
                    &&& l >= 14 && x != 0 && x % 2 == 0
                    &&& shortest_multiple_suffix(final(self).digits(), l as int, M1_1 as nat)
                },
                None => true,
            },
            old(self).aligned() ==> forall|l: int|
                #![trigger shortest_multiple_suffix(final(self).digits(), l, M1_1 as nat)]
                shortest_multiple_suffix(final(self).digits(), l, M1_1 as nat) && l < N
                    && old(self).index_holds(x, l) ==> old(self).window_result(x) == Some(l as usize),
            old(self).aligned() ==> r == Self::report_of_digits(old(self).digits(), x),
            old(self).aligned() ==> forall|l: int|
                #![trigger shortest_multiple_suffix(final(self).digits(), l, M1_1 as nat)]
                shortest_multiple_suffix(final(self).digits(), l, M1_1 as nat) && 14 <= l < N
                    && x != 0 && x % 2 == 0 && old(self).index_holds(x, l) ==> r == Some(l as usize),
    {
        proof {
            if old(self).aligned() {
                old(self).lemma_window_result_of_digits(x);
                old(self).lemma_report_law(x);
            }
        }
        let ghost o = *self;
        self.i = self.i + 1;
        let t0 = self.window.last();
        let row = self.rtable[self.i - self.pre_start];
        let mut t1: u32 = t0 as u32 + row[x as usize];
        if t1 >= M1_1 {
            t1 = t1 - M1_1;
        }
        proof {
            o.window.lemma_history();
            assert(t0 == o.window.history()[o.i as int]);
            let v = t0 + row[x as int];
            if v >= M1_1 {
                vstd::arithmetic::div_mod::lemma_fundamental_div_mod_converse(v as int, M1_1 as int, 1, v - M1_1);
            } else {
                lemma_small_mod(v as nat, M1_1 as nat);
            }
            assert(t1 == o.next_residue(x));
        }
        let len = self.window.push(t1 as u128);
        self.ds = Ghost(self.ds@.push(x));
        proof {
            self.window.lemma_history();
            assert forall|k: int| 0 <= k <= self.i implies #[trigger] self.window.history()[k]
                < M1_1 by {
                if k < self.i {
                    assert(self.window.history()[k] == o.window.history()[k]);
                }
            }
            if o.aligned() {
                lemma_m1_inverse();
                let ds = o.ds@;
                assert(ds.take(ds.len() as int) =~= ds);
                assert(row_matches_u32(o.rtable@[self.i - o.pre_start], self.i as nat, M1_R as nat, M1_1 as nat));
                lemma_next_residue(ds, x, M1_R as nat, M1_1 as nat, t0 as nat, row[x as int] as nat, t1 as nat);
                lemma_push_aligned(o.window.history(), self.window.history(), ds, x, M1_R as nat, M1_1 as nat,
                    t1 as u128, len);
            }
        }
        match len {
            Some(l) if l >= 14 && x != 0 && x % 2 == 0 => Some(l),
            _ => None,
        }
    }

    fn prepare(&mut self)
        ensures
            old(self).start_row_aligned() ==> final(self).table_aligned(),
            final(self).history() == old(self).history(),
            old(self).aligned() ==> final(self).aligned(),
            final(self).pos() == old(self).pos(),
            final(self).table_start() == final(self).pos(),
            old(self).aligned() && old(self).room() > 0 ==> forall|x: u8|
                x < 10 ==> #[trigger] final(self).report(x) == old(self).report(x),
    {
        let ghost o = *self;
        let mut rs = self.rtable[self.i - self.pre_start];
        self.pre_start = self.i;
        let mut k: usize = 0;
        while k < PRE_LEN
            invariant
                0 <= k <= PRE_LEN,
                self.rtable@.len() == PRE_LEN,
                self.i == o.i,
                self.pre_start == o.i,
                self.window == o.window,
                self.ds == o.ds,
                forall|x: int| 0 <= x < 10 ==> #[trigger] rs[x] < M1_1,
                forall|j: int, x: int|
                    0 <= j < PRE_LEN && 0 <= x < 10 ==> #[trigger] self.rtable@[j][x] < M1_1,
                o.start_row_aligned() ==> {
                    &&& forall|j: int|
                        0 <= j < k ==> row_matches_u32(
                            #[trigger] self.rtable@[j],
                            (o.i + j) as nat,
                            M1_R as nat,
                            M1_1 as nat,
                        )
                    &&& forall|x: int|
                        0 <= x < 10 ==> #[trigger] rs[x] == (x as nat * power(
                            M1_R as nat,
                            (o.i + k) as nat,
                        )) % (M1_1 as nat)
                },
            decreases PRE_LEN - k,
        {
            self.rtable.set(k, rs);
            let mut next = rs;
            let mut x: usize = 0;
            while x < 10
                invariant
                    0 <= x <= 10,
                    forall|y: int| 0 <= y < 10 ==> #[trigger] rs[y] < M1_1,
                    forall|y: int| 0 <= y < x ==> #[trigger] next[y] == (rs[y] as nat
                        * M1_R as nat) % M1_1 as nat,
                    forall|y: int| 0 <= y < 10 ==> #[trigger] next[y] < M1_1,
                decreases 10 - x,
            {
                next[x] = m1_mul_r(rs[x]);
                x += 1;
            }
            proof {
                if o.start_row_aligned() {
                    assert forall|y: int| 0 <= y < 10 implies #[trigger] next[y] == (y as nat
                        * power(M1_R as nat, (o.i + k + 1) as nat)) % (M1_1 as nat) by {
                        lemma_row_step(y as nat, (o.i + k) as nat, M1_R as nat, M1_1 as nat, rs[y] as nat);
                    }
                }
            }
            rs = next;
            k += 1;
        }
        proof {
            if o.aligned() && o.room() > 0 {
                assert forall|x: u8| x < 10 implies #[trigger] self.report(x) == o.report(x) by {
                    o.lemma_next_residue_of(x);
                    self.lemma_next_residue_of(x);
                }
            }
        }
    }
}

impl Default for M1Data {
    /// A detector that has read nothing, its table prepared.
    fn default() -> (s: Self)
        ensures
            s.wf(),
            s.aligned(),
            s.digits() == Seq::<u8>::empty(),
            s.room() == PRE_LEN - 1,
    {
        let mut rtable: Vec<[u32; 10]> = Vec::new();
        let mut k: usize = 0;
        while k < PRE_LEN
            invariant
                0 <= k <= PRE_LEN,
                rtable@.len() == k,
                forall|j: int, x: int| 0 <= j < k && 0 <= x < 10 ==> #[trigger] rtable@[j][x] == x,
            decreases PRE_LEN - k,
        {
            rtable.push([0, 1, 2, 3, 4, 5, 6, 7, 8, 9]);
            k += 1;
        }
        let ghost empty: Seq<u8> = Seq::empty();
        let mut s = M1Data {
            i: 0,
            window: WindowArray::new(),
            pre_start: 0,
            rtable,
            ds: Ghost(empty),
        };
        proof {
            assert(s.start_row_aligned()) by {
                assert forall|x: int| 0 <= x < 10 implies #[trigger] s.rtable@[0][x] == (x as nat
                    * power(M1_R as nat, 0)) % (M1_1 as nat) by {
                    assert(power(M1_R as nat, 0) == 1);
                    assert(s.rtable@[0][x] == x);
                    lemma_small_mod(x as nat, M1_1 as nat);
                }
            }
            assert(empty.take(0) =~= empty);
        }
        s.prepare();
        s
    }
}

// ---------------------------------------------------------------------------
// M2

/// `x * M2_R mod M2`, computed from the three 32-bit pieces of `M2_R` so that
/// no product leaves 128 bits.
fn m2_mul_r(x: u128) -> (r: u128)
    requires
        x < M2,
    ensures
        r == (x as nat * M2_R as nat) % M2 as nat,
        r < M2,
{
    let ghost x_in = x;
    let mut x = x;
    proof {
        lemma_m2_pieces();
        lemma_shl32(x);
    }
    let c1 = x * u128_mod_u128(M2_R & 0xFFFF_FFFF, M2);
    x = u128_mod_u128(x << 32u128, M2);
    let ghost x1 = x;
    proof {
        lemma_shl32(x);
    }
    let c2 = x * u128_mod_u128((M2_R >> 32u128) & 0xFFFF_FFFF, M2);
    x = u128_mod_u128(x << 32u128, M2);
    let ghost x2 = x;
    let c3 = x * u128_mod_u128((M2_R >> 64u128) & 0xFFFF_FFFF, M2);
    proof {
        lemma_m2_pieces_combine(x_in as int, x1 as int, x2 as int);
    }
    u128_mod_u128(c1 + c2 + c3, M2)
}

/// The three 32-bit pieces of `M2_R`, each already below `M2`.
proof fn lemma_m2_pieces()
    ensures
        M2_R & 0xFFFF_FFFF == 3294923061,
        (M2_R >> 32u128) & 0xFFFF_FFFF == 202525201,
        (M2_R >> 64u128) & 0xFFFF_FFFF == 5105694,
        M2_R == 3294923061 + 202525201 * 0x1_0000_0000 + 5105694 * 0x1_0000_0000_0000_0000,
        3294923061u128 % M2 == 3294923061,
        202525201u128 % M2 == 202525201,
        5105694u128 % M2 == 5105694,
{
    assert(94183431406513533634251061u128 & 0xFFFF_FFFF == 3294923061) by (bit_vector);
    assert((94183431406513533634251061u128 >> 32u128) & 0xFFFF_FFFF == 202525201)
        by (bit_vector);
    assert((94183431406513533634251061u128 >> 64u128) & 0xFFFF_FFFF == 5105694)
        by (bit_vector);
    lemma_small_mod(3294923061, M2 as nat);
    lemma_small_mod(202525201, M2 as nat);
    lemma_small_mod(5105694, M2 as nat);
}

proof fn lemma_shl32(x: u128)
    requires
        x < M2,
    ensures
        x << 32u128 == x * 0x1_0000_0000,
{
    assert(x < 0x1_0000_0000_0000_0000_0000_0000u128 ==> x << 32u128 == x * 0x1_0000_0000u128)
        by (bit_vector);
}

proof fn lemma_mod_congruent(a: int, b: int, c: int, m: int)
    requires
        m > 0,
        b % m == c % m,
    ensures
        (a + b) % m == (a + c) % m,
{
    lemma_add_mod_noop(a, b, m);
    lemma_add_mod_noop(a, c, m);
}

/// `x * r0 + x1 * r1 + x2 * r2` is `x * M2_R` modulo `M2` when `x1` and `x2`
/// are `x * 2^32` and `x * 2^64` reduced.
proof fn lemma_m2_pieces_combine(x: int, x1: int, x2: int)
    requires
        x1 == (x * 0x1_0000_0000) % (M2 as int),
        x2 == (x1 * 0x1_0000_0000) % (M2 as int),
    ensures
        (x * 3294923061 + x1 * 202525201 + x2 * 5105694) % (M2 as int) == (x * M2_R as int) % (
        M2 as int),
{
    let m = M2 as int;
    let p = 0x1_0000_0000int;
    lemma_mul_mod_noop_left(x * p, 202525201, m);
    lemma_mul_mod_noop_left(x1 * p, 5105694, m);
    lemma_mul_mod_noop_left(x * p, p * 5105694, m);
    assert(x1 * p * 5105694 == x1 * (p * 5105694)) by (nonlinear_arith);
    lemma_mul_mod_noop_left(x1, p * 5105694, m);
    assert((x * p) * (p * 5105694) == x * (p * p * 5105694)) by (nonlinear_arith);
    let a = x * 3294923061;
    lemma_mod_congruent(a + x1 * 202525201, x2 * 5105694, x * (p * p * 5105694), m);
    lemma_mod_congruent(x * (p * p * 5105694) + a, x1 * 202525201, (x * p) * 202525201, m);
    assert(a + (x * p) * 202525201 + x * (p * p * 5105694) == x * M2_R as int) by (nonlinear_arith)
        requires
            a == x * 3294923061,
            p == 0x1_0000_0000,
            M2_R as int == 3294923061 + 202525201 * 0x1_0000_0000 + 5105694
                * 0x1_0000_0000_0000_0000,
    ;
}

proof fn lemma_m2_inverse()
    ensures
        inverse_of_ten(M2_R as nat, M2 as nat),
{
    vstd::arithmetic::div_mod::lemma_fundamental_div_mod_converse(
        10 * M2_R as int,
        M2 as int,
        9,
        1,
    );
}

/// Detects numbers divisible by `M2` that end in a nonzero digit, at least 27 digits long.
pub struct M2Data {
    i: usize,
    window: WindowArray,
    pre_start: usize,
    rtable: Vec<[u128; 10]>,
    ds: Ghost<Seq<u8>>,
}

impl M2Data {
    /// Number of digits pushed.
    pub closed spec fn pos(self) -> int {
        self.i as int
    }

    /// The position whose exponent the first table row holds.
    pub closed spec fn table_start(self) -> int {
        self.pre_start as int
    }

    /// The table rows: row `j` is meant to hold `x * R^(table_start + j)`.
    pub closed spec fn rows(self) -> Seq<[u128; 10]> {
        self.rtable@
    }

    /// The residues remembered: position `k` holds the residue after `k` digits.
    pub closed spec fn history(self) -> Seq<u128> {
        self.window.history()
    }

    /// Row `j` of the table holds `x * M2_R^(table_start + j) mod M2`.
    pub open spec fn table_aligned(self) -> bool {
        forall|j: int|
            0 <= j < PRE_LEN ==> row_matches_u128(
                #[trigger] self.rows()[j],
                (self.table_start() + j) as nat,
                M2_R as nat,
                M2 as nat,
            )
    }

    /// The residues remembered and the table both match the digits pushed.
    pub open spec fn aligned(self) -> bool {
        &&& self.table_aligned()
        &&& history_matches(self.history(), self.digits(), M2_R as nat, M2 as nat)
    }

    /// The row that the next `prepare` starts from is the one for the current position.
    pub open spec fn start_row_aligned(self) -> bool {
        row_matches_u128(
            self.rows()[self.pos() - self.table_start()],
            self.pos() as nat,
            M2_R as nat,
            M2 as nat,
        )
    }

    /// The residue the next push of `x` computes.
    pub open spec fn next_residue(self, x: u8) -> u128 {
        ((self.history()[self.pos()] + self.rows()[self.pos() + 1 - self.table_start()][x as int])
            % (M2 as int)) as u128
    }

    /// What the window reports when the next residue is pushed.
    pub open spec fn window_result(self, x: u8) -> Option<usize> {
        push_result(self.history(), self.next_residue(x))
    }

    /// The index still knows the residue `l` digits back: no residue of
    /// the next residue's bucket has come since that position.
    pub open spec fn index_holds(self, x: u8, l: int) -> bool {
        bucket_quiet(self.history(), bucket_of(self.next_residue(x)), self.pos() + 1 - l, self.pos())
    }

    /// What the invariant says of the accessors.
    pub proof fn lemma_shape(self)
        requires
            self.wf(),
        ensures
            self.pos() == self.digits().len(),
            self.history().len() == self.pos() + 1,
            0 <= self.pos() - self.table_start() < PRE_LEN,
            self.rows().len() == PRE_LEN,
            self.room() == PRE_LEN - 1 - (self.pos() - self.table_start()),
    {
        self.window.lemma_history();
    }

    /// On an aligned detector with room left, the next residue is the
    /// residue of the digits with `x` pushed.
    pub proof fn lemma_next_residue_of(self, x: u8)
        requires
            self.wf(),
            self.aligned(),
            self.room() > 0,
            x < 10,
        ensures
            self.next_residue(x) as nat == residue(self.digits().push(x), M2_R as nat, M2 as nat),
    {
        let ds = self.ds@;
        assert(ds.take(ds.len() as int) =~= ds);
        let t0 = self.window.history()[self.i as int];
        let e = self.rtable@[self.i + 1 - self.pre_start][x as int];
        let jj = self.i + 1 - self.pre_start;
        assert(row_matches_u128(self.rows()[jj], (self.table_start() + jj) as nat, M2_R as nat, M2 as nat));
        lemma_next_residue(ds, x, M2_R as nat, M2 as nat, t0 as nat, e as nat, ((t0 + e) % (M2 as int)) as nat);
    }

    /// On an aligned detector with room left, what the window reports on
    /// the next digit depends on the digits pushed alone, whatever the table
    /// start: so `prepare` changes no later result.
    pub proof fn lemma_window_result_of_digits(self, x: u8)
        requires
            self.wf(),
            self.aligned(),
            self.room() > 0,
            x < 10,
        ensures
            self.window_result(x) == push_result(
                prefix_residues(self.digits(), M2_R as nat, M2 as nat),
                residue(self.digits().push(x), M2_R as nat, M2 as nat) as u128,
            ),
    {
        self.lemma_next_residue_of(x);
        self.window.lemma_history();
        assert(self.history() =~= prefix_residues(self.digits(), M2_R as nat, M2 as nat));
    }

    /// What an aligned detector that has read `ds` reports when `x` comes next.
    pub open spec fn report_of_digits(ds: Seq<u8>, x: u8) -> Option<usize> {
        match push_result(
            prefix_residues(ds, M2_R as nat, M2 as nat),
            residue(ds.push(x), M2_R as nat, M2 as nat) as u128,
        ) {
            Some(l) => if l >= 27 && x != 0 {
                Some(l)
            } else {
                None
            },
            None => None,
        }
    }

    /// What an aligned detector that has read `ds` reports on each digit of
    /// `more`, pushed in turn.
    pub open spec fn reports_of_digits(ds: Seq<u8>, more: Seq<u8>) -> Seq<Option<usize>>
        decreases more.len(),
    {
        if more.len() == 0 {
            Seq::empty()
        } else {
            Self::reports_of_digits(ds, more.drop_last()).push(
                Self::report_of_digits(ds + more.drop_last(), more.last()),
            )
        }
    }

    /// Pushes the digits of `more` in turn and returns each report.
    ///
    /// The reports depend on the digits read before and on `more` alone, not
    /// on where the table starts: so `prepare` changes no later report.
    pub fn push_all(&mut self, more: &[u8]) -> (r: Vec<Option<usize>>)
        requires
            old(self).wf(),
            old(self).aligned(),
            more@.len() <= old(self).room(),
            old(self).digits().len() + more@.len() < usize::MAX,
            forall|k: int| 0 <= k < more@.len() ==> #[trigger] more@[k] < 10,
        ensures
            final(self).wf(),
            final(self).aligned(),
            final(self).digits() == old(self).digits() + more@,
            final(self).room() == old(self).room() - more@.len(),
            r@ == Self::reports_of_digits(old(self).digits(), more@),
    {
        let ghost d0 = self.digits();
        let ghost room0 = self.room();
        let mut r: Vec<Option<usize>> = Vec::new();
        let mut k: usize = 0;
        proof {
            assert(more@.take(0) =~= Seq::<u8>::empty());
            assert(d0 + more@.take(0) =~= d0);
        }
        while k < more.len()
            invariant
                self.wf(),
                self.aligned(),
                k <= more@.len(),
                more@.len() <= room0,
                d0.len() + more@.len() < usize::MAX,
                forall|j: int| 0 <= j < more@.len() ==> #[trigger] more@[j] < 10,
                self.digits() == d0 + more@.take(k as int),
                self.room() == room0 - k,
                r@ == Self::reports_of_digits(d0, more@.take(k as int)),
            decreases more@.len() - k,
        {
            let x = more[k];
            let ghost before = *self;
            let v = self.push(x);
            r.push(v);
            proof {
                let t = more@.take(k + 1);
                assert(t.drop_last() =~= more@.take(k as int));
                assert(t.last() == x);
                assert(d0 + t =~= (d0 + more@.take(k as int)).push(x));
            }
            k += 1;
        }
        proof {
            assert(more@.take(more@.len() as int) =~= more@);
        }
        r
    }

    /// What an aligned detector with room left reports on the digit `x`:
    /// a length `l` only when the last `l` digits, `x` included, are the
    /// shortest suffix that is a multiple of `M2`, with `l >= 27 && x != 0`; and every
    /// such shortest suffix below `N` digits that the index still knows.
    pub proof fn lemma_report_law(self, x: u8)
        requires
            self.wf(),
            self.aligned(),
            self.room() > 0,
            x < 10,
        ensures
            match self.report(x) {
                Some(l) => {
                    &&& l >= 27 && x != 0
                    &&& shortest_multiple_suffix(self.digits().push(x), l as int, M2 as nat)
                },
                None => true,
            },
            forall|l: int|
                #![trigger shortest_multiple_suffix(self.digits().push(x), l, M2 as nat)]
                shortest_multiple_suffix(self.digits().push(x), l, M2 as nat) && 27 <= l < N
                    && x != 0 && self.index_holds(x, l) ==> self.report(x) == Some(l as usize),
    {
        lemma_m2_inverse();
        self.lemma_next_residue_of(x);
        self.lemma_shape();
        let t1 = self.next_residue(x);
        lemma_push_aligned(
            self.history(),
            self.history().push(t1),
            self.digits(),
            x,
            M2_R as nat,
            M2 as nat,
            t1,
            push_result(self.history(), t1),
        );
    }

    /// Sets the table's start to the current position without recomputing it.
    ///
    /// Used to time pushes alone: the rows and the window are left as they
    /// are, so the table no longer matches the digits.
    pub fn prepare_nop(&mut self)
        requires
            old(self).wf(),
        ensures
            final(self).wf(),
            final(self).digits() == old(self).digits(),
            final(self).room() == PRE_LEN - 1,
            final(self).pos() == old(self).pos(),
            final(self).table_start() == old(self).pos(),
            final(self).rows() == old(self).rows(),
            final(self).window() == old(self).window(),
            final(self).history() == old(self).history(),
    {
        self.pre_start = self.i;
    }
}

impl Data for M2Data {
    closed spec fn wf(&self) -> bool {
        &&& self.window.wf()
        &&& self.window.pos() == self.i
        &&& self.ds@.len() == self.i
        &&& self.pre_start <= self.i
        &&& self.i - self.pre_start < PRE_LEN
        &&& self.rtable@.len() == PRE_LEN
        &&& forall|j: int, x: int|
            0 <= j < PRE_LEN && 0 <= x < 10 ==> #[trigger] self.rtable@[j][x] < M2
        &&& forall|k: int| 0 <= k <= self.i ==> #[trigger] self.window.history()[k] < M2
    }

    closed spec fn digits(&self) -> Seq<u8> {
        self.ds@
    }

    closed spec fn room(&self) -> nat {
        (PRE_LEN - 1 - (self.i - self.pre_start)) as nat
    }

    open spec fn report(&self, x: u8) -> Option<usize> {
        match self.window_result(x) {
            Some(l) => if l >= 27 && x != 0 {
                Some(l)
            } else {
                None
            },
            None => None,
        }
    }

    closed spec fn window(&self) -> WindowArray {
        self.window
    }

    /// Pushes a digit and reports the length of the shortest suffix divisible
    /// by `M2` when it is at least 27 digits and the digit is nonzero.
    fn push(&mut self, x: u8) -> (r: Option<usize>)
        ensures
            old(self).aligned() ==> final(self).aligned(),
            old(self).aligned() ==> match r {
                Some(l) => {
                    &&& l >= 27 && x != 0
                    &&& shortest_multiple_suffix(final(self).digits(), l as int, M2 as nat)
                },
                None => true,
            },
            old(self).aligned() ==> forall|l: int|
                #![trigger shortest_multiple_suffix(final(self).digits(), l, M2 as nat)]
                shortest_multiple_suffix(final(self).digits(), l, M2 as nat) && l < N
                    && old(self).index_holds(x, l) ==> old(self).window_result(x) == Some(l as usize),
            old(self).aligned() ==> r == Self::report_of_digits(old(self).digits(), x),
            old(self).aligned() ==> forall|l: int|
                #![trigger shortest_multiple_suffix(final(self).digits(), l, M2 as nat)]
                shortest_multiple_suffix(final(self).digits(), l, M2 as nat) && 27 <= l < N
                    && x != 0 && old(self).index_holds(x, l) ==> r == Some(l as usize),
    {
        proof {
            if old(self).aligned() {
                old(self).lemma_window_result_of_digits(x);
                old(self).lemma_report_law(x);
            }
        }
        let ghost o = *self;
        self.i = self.i + 1;
        let t0 = self.window.last();
        let row = self.rtable[self.i - self.pre_start];
        let mut t1: u128 = t0 as u128 + row[x as usize];
        if t1 >= M2 {
            t1 = t1 - M2;
        }
        proof {
            o.window.lemma_history();
            assert(t0 == o.window.history()[o.i as int]);
            let v = t0 + row[x as int];
            if v >= M2 {
                vstd::arithmetic::div_mod::lemma_fundamental_div_mod_converse(v as int, M2 as int, 1, v - M2);
            } else {
                lemma_small_mod(v as nat, M2 as nat);
            }
            assert(t1 == o.next_residue(x));
        }
        let len = self.window.push(t1 as u128);
        self.ds = Ghost(self.ds@.push(x));
        proof {
            self.window.lemma_history();
            assert forall|k: int| 0 <= k <= self.i implies #[trigger] self.window.history()[k]
                < M2 by {
                if k < self.i {
                    assert(self.window.history()[k] == o.window.history()[k]);
                }
            }
            if o.aligned() {
                lemma_m2_inverse();
                let ds = o.ds@;
                assert(ds.take(ds.len() as int) =~= ds);
                assert(row_matches_u128(o.rtable@[self.i - o.pre_start], self.i as nat, M2_R as nat, M2 as nat));
                lemma_next_residue(ds, x, M2_R as nat, M2 as nat, t0 as nat, row[x as int] as nat, t1 as nat);
                lemma_push_aligned(o.window.history(), self.window.history(), ds, x, M2_R as nat, M2 as nat,
                    t1 as u128, len);
            }
        }
        match len {
            Some(l) if l >= 27 && x != 0 => Some(l),
            _ => None,
        }
    }

    fn prepare(&mut self)
        ensures
            old(self).start_row_aligned() ==> final(self).table_aligned(),
            final(self).history() == old(self).history(),
            old(self).aligned() ==> final(self).aligned(),
            final(self).pos() == old(self).pos(),
            final(self).table_start() == final(self).pos(),
            old(self).aligned() && old(self).room() > 0 ==> forall|x: u8|
                x < 10 ==> #[trigger] final(self).report(x) == old(self).report(x),
    {
        let ghost o = *self;
        let mut rs = self.rtable[self.i - self.pre_start];
        self.pre_start = self.i;
        let mut k: usize = 0;
        while k < PRE_LEN
            invariant
                0 <= k <= PRE_LEN,
                self.rtable@.len() == PRE_LEN,
                self.i == o.i,
                self.pre_start == o.i,
                self.window == o.window,
                self.ds == o.ds,
                forall|x: int| 0 <= x < 10 ==> #[trigger] rs[x] < M2,
                forall|j: int, x: int|
                    0 <= j < PRE_LEN && 0 <= x < 10 ==> #[trigger] self.rtable@[j][x] < M2,
                o.start_row_aligned() ==> {
                    &&& forall|j: int|
                        0 <= j < k ==> row_matches_u128(
                            #[trigger] self.rtable@[j],
                            (o.i + j) as nat,
                            M2_R as nat,
                            M2 as nat,
                        )
                    &&& forall|x: int|
                        0 <= x < 10 ==> #[trigger] rs[x] == (x as nat * power(
                            M2_R as nat,
                            (o.i + k) as nat,
                        )) % (M2 as nat)
                },
            decreases PRE_LEN - k,
        {
            self.rtable.set(k, rs);
            let mut next = rs;
            let mut x: usize = 0;
            while x < 10
                invariant
                    0 <= x <= 10,
                    forall|y: int| 0 <= y < 10 ==> #[trigger] rs[y] < M2,
                    forall|y: int| 0 <= y < x ==> #[trigger] next[y] == (rs[y] as nat
                        * M2_R as nat) % M2 as nat,
                    forall|y: int| 0 <= y < 10 ==> #[trigger] next[y] < M2,
                decreases 10 - x,
            {
                next[x] = m2_mul_r(rs[x]);
                x += 1;
            }
            proof {
                if o.start_row_aligned() {
                    assert forall|y: int| 0 <= y < 10 implies #[trigger] next[y] == (y as nat
                        * power(M2_R as nat, (o.i + k + 1) as nat)) % (M2 as nat) by {
                        lemma_row_step(y as nat, (o.i + k) as nat, M2_R as nat, M2 as nat, rs[y] as nat);
                    }
                }
            }
            rs = next;
            k += 1;
        }
        proof {
            if o.aligned() && o.room() > 0 {
                assert forall|x: u8| x < 10 implies #[trigger] self.report(x) == o.report(x) by {
                    o.lemma_next_residue_of(x);
                    self.lemma_next_residue_of(x);
                }
            }
        }
    }
}

impl Default for M2Data {
    /// A detector that has read nothing, its table prepared.
    fn default() -> (s: Self)
        ensures
            s.wf(),
            s.aligned(),
            s.digits() == Seq::<u8>::empty(),
            s.room() == PRE_LEN - 1,
    {
        let mut rtable: Vec<[u128; 10]> = Vec::new();
        let mut k: usize = 0;
        while k < PRE_LEN
            invariant
                0 <= k <= PRE_LEN,
                rtable@.len() == k,
                forall|j: int, x: int| 0 <= j < k && 0 <= x < 10 ==> #[trigger] rtable@[j][x] == x,
            decreases PRE_LEN - k,
        {
            rtable.push([0, 1, 2, 3, 4, 5, 6, 7, 8, 9]);
            k += 1;
        }
        let ghost empty: Seq<u8> = Seq::empty();
        let mut s = M2Data {
            i: 0,
            window: WindowArray::new(),
            pre_start: 0,
            rtable,
            ds: Ghost(empty),
        };
        proof {
            assert(s.start_row_aligned()) by {
                assert forall|x: int| 0 <= x < 10 implies #[trigger] s.rtable@[0][x] == (x as nat
                    * power(M2_R as nat, 0)) % (M2 as nat) by {
                    assert(power(M2_R as nat, 0) == 1);
                    assert(s.rtable@[0][x] == x);
                    lemma_small_mod(x as nat, M2 as nat);
                }
            }
            assert(empty.take(0) =~= empty);
        }
        s.prepare();
        s
    }
}

// ---------------------------------------------------------------------------
// M3

/// `x * M3_R mod M3_1`, computed in 128 bits.
fn m3_mul_r(x: u64) -> (r: u64)
    requires
        x < M3_1,
    ensures
        r == (x as nat * M3_R as nat) % M3_1 as nat,
        r < M3_1,
{
    assert(x as nat * M3_R as nat <= M3_1 as nat * M3_R as nat) by (nonlinear_arith)
        requires
            x < M3_1,
    ;
    u128_mod_u128(x as u128 * M3_R as u128, M3_1 as u128) as u64
}

proof fn lemma_m3_inverse()
    ensures
        inverse_of_ten(M3_R as nat, M3_1 as nat),
{
    vstd::arithmetic::div_mod::lemma_fundamental_div_mod_converse(
        10 * M3_R as int,
        M3_1 as int,
        9,
        1,
    );
}

/// Detects numbers divisible by `M3_1` that end in a nonzero digit, at least 54 digits long.
pub struct M3Data {
    i: usize,
    window: WindowArray,
    pre_start: usize,
    rtable: Vec<[u64; 10]>,
    ds: Ghost<Seq<u8>>,
}

impl M3Data {
    /// Number of digits pushed.
    pub closed spec fn pos(self) -> int {
        self.i as int
    }

    /// The position whose exponent the first table row holds.
    pub closed spec fn table_start(self) -> int {
        self.pre_start as int
    }

    /// The table rows: row `j` is meant to hold `x * R^(table_start + j)`.
    pub closed spec fn rows(self) -> Seq<[u64; 10]> {
        self.rtable@
    }

    /// The residues remembered: position `k` holds the residue after `k` digits.
    pub closed spec fn history(self) -> Seq<u128> {
        self.window.history()
    }

    /// Row `j` of the table holds `x * M3_R^(table_start + j) mod M3_1`.
    pub open spec fn table_aligned(self) -> bool {
        forall|j: int|
            0 <= j < PRE_LEN ==> row_matches_u64(
                #[trigger] self.rows()[j],
                (self.table_start() + j) as nat,
                M3_R as nat,
                M3_1 as nat,
            )
    }

    /// The residues remembered and the table both match the digits pushed.
    pub open spec fn aligned(self) -> bool {
        &&& self.table_aligned()
        &&& history_matches(self.history(), self.digits(), M3_R as nat, M3_1 as nat)
    }

    /// The row that the next `prepare` starts from is the one for the current position.
    pub open spec fn start_row_aligned(self) -> bool {
        row_matches_u64(
            self.rows()[self.pos() - self.table_start()],
            self.pos() as nat,
            M3_R as nat,
            M3_1 as nat,
        )
    }

    /// The residue the next push of `x` computes.
    pub open spec fn next_residue(self, x: u8) -> u128 {
        ((self.history()[self.pos()] + self.rows()[self.pos() + 1 - self.table_start()][x as int])
            % (M3_1 as int)) as u128
    }

    /// What the window reports when the next residue is pushed.
    pub open spec fn window_result(self, x: u8) -> Option<usize> {
        push_result(self.history(), self.next_residue(x))
    }

    /// The index still knows the residue `l` digits back: no residue of
    /// the next residue's bucket has come since that position.
    pub open spec fn index_holds(self, x: u8, l: int) -> bool {
        bucket_quiet(self.history(), bucket_of(self.next_residue(x)), self.pos() + 1 - l, self.pos())
    }

    /// What the invariant says of the accessors.
    pub proof fn lemma_shape(self)
        requires
            self.wf(),
        ensures
            self.pos() == self.digits().len(),
            self.history().len() == self.pos() + 1,
            0 <= self.pos() - self.table_start() < PRE_LEN,
            self.rows().len() == PRE_LEN,
            self.room() == PRE_LEN - 1 - (self.pos() - self.table_start()),
    {
        self.window.lemma_history();
    }

    /// On an aligned detector with room left, the next residue is the
    /// residue of the digits with `x` pushed.
    pub proof fn lemma_next_residue_of(self, x: u8)
        requires
            self.wf(),
            self.aligned(),
            self.room() > 0,
            x < 10,
        ensures
            self.next_residue(x) as nat == residue(self.digits().push(x), M3_R as nat, M3_1 as nat),
    {
        let ds = self.ds@;
        assert(ds.take(ds.len() as int) =~= ds);
        let t0 = self.window.history()[self.i as int];
        let e = self.rtable@[self.i + 1 - self.pre_start][x as int];
        let jj = self.i + 1 - self.pre_start;
        assert(row_matches_u64(self.rows()[jj], (self.table_start() + jj) as nat, M3_R as nat, M3_1 as nat));
        lemma_next_residue(ds, x, M3_R as nat, M3_1 as nat, t0 as nat, e as nat, ((t0 + e) % (M3_1 as int)) as nat);
    }

    /// On an aligned detector with room left, what the window reports on
    /// the next digit depends on the digits pushed alone, whatever the table
    /// start: so `prepare` changes no later result.
    pub proof fn lemma_window_result_of_digits(self, x: u8)
        requires
            self.wf(),
            self.aligned(),
            self.room() > 0,
            x < 10,
        ensures
            self.window_result(x) == push_result(
                prefix_residues(self.digits(), M3_R as nat, M3_1 as nat),
                residue(self.digits().push(x), M3_R as nat, M3_1 as nat) as u128,
            ),
    {
        self.lemma_next_residue_of(x);
        self.window.lemma_history();
        assert(self.history() =~= prefix_residues(self.digits(), M3_R as nat, M3_1 as nat));
    }

    /// What an aligned detector that has read `ds` reports when `x` comes next.
    pub open spec fn report_of_digits(ds: Seq<u8>, x: u8) -> Option<usize> {
        match push_result(
            prefix_residues(ds, M3_R as nat, M3_1 as nat),
            residue(ds.push(x), M3_R as nat, M3_1 as nat) as u128,
        ) {
            Some(l) => if l >= 54 && x != 0 {
                Some(l)
            } else {
                None
            },
            None => None,
        }
    }

    /// What an aligned detector that has read `ds` reports on each digit of
    /// `more`, pushed in turn.
    pub open spec fn reports_of_digits(ds: Seq<u8>, more: Seq<u8>) -> Seq<Option<usize>>
        decreases more.len(),
    {
        if more.len() == 0 {
            Seq::empty()
        } else {
            Self::reports_of_digits(ds, more.drop_last()).push(
                Self::report_of_digits(ds + more.drop_last(), more.last()),
            )
        }
    }

    /// Pushes the digits of `more` in turn and returns each report.
    ///
    /// The reports depend on the digits read before and on `more` alone, not
    /// on where the table starts: so `prepare` changes no later report.
    pub fn push_all(&mut self, more: &[u8]) -> (r: Vec<Option<usize>>)
        requires
            old(self).wf(),
            old(self).aligned(),
            more@.len() <= old(self).room(),
            old(self).digits().len() + more@.len() < usize::MAX,
            forall|k: int| 0 <= k < more@.len() ==> #[trigger] more@[k] < 10,
        ensures
            final(self).wf(),
            final(self).aligned(),
            final(self).digits() == old(self).digits() + more@,
            final(self).room() == old(self).room() - more@.len(),
            r@ == Self::reports_of_digits(old(self).digits(), more@),
    {
        let ghost d0 = self.digits();
        let ghost room0 = self.room();
        let mut r: Vec<Option<usize>> = Vec::new();
        let mut k: usize = 0;
        proof {
            assert(more@.take(0) =~= Seq::<u8>::empty());
            assert(d0 + more@.take(0) =~= d0);
        }
        while k < more.len()
            invariant
                self.wf(),
                self.aligned(),
                k <= more@.len(),
                more@.len() <= room0,
                d0.len() + more@.len() < usize::MAX,
                forall|j: int| 0 <= j < more@.len() ==> #[trigger] more@[j] < 10,
                self.digits() == d0 + more@.take(k as int),
                self.room() == room0 - k,
                r@ == Self::reports_of_digits(d0, more@.take(k as int)),
            decreases more@.len() - k,
        {
            let x = more[k];
            let ghost before = *self;
            let v = self.push(x);
            r.push(v);
            proof {
                let t = more@.take(k + 1);
                assert(t.drop_last() =~= more@.take(k as int));
                assert(t.last() == x);
                assert(d0 + t =~= (d0 + more@.take(k as int)).push(x));
            }
            k += 1;
        }
        proof {
            assert(more@.take(more@.len() as int) =~= more@);
        }
        r
    }

    /// What an aligned detector with room left reports on the digit `x`:
    /// a length `l` only when the last `l` digits, `x` included, are the
    /// shortest suffix that is a multiple of `M3_1`, with `l >= 54 && x != 0`; and every
    /// such shortest suffix below `N` digits that the index still knows.
    pub proof fn lemma_report_law(self, x: u8)
        requires
            self.wf(),
            self.aligned(),
            self.room() > 0,
            x < 10,
        ensures
            match self.report(x) {
                Some(l) => {
                    &&& l >= 54 && x != 0
                    &&& shortest_multiple_suffix(self.digits().push(x), l as int, M3_1 as nat)
                },
                None => true,
            },
            forall|l: int|
                #![trigger shortest_multiple_suffix(self.digits().push(x), l, M3_1 as nat)]
                shortest_multiple_suffix(self.digits().push(x), l, M3_1 as nat) && 54 <= l < N
                    && x != 0 && self.index_holds(x, l) ==> self.report(x) == Some(l as usize),
    {
        lemma_m3_inverse();
        self.lemma_next_residue_of(x);
        self.lemma_shape();
        let t1 = self.next_residue(x);
        lemma_push_aligned(
            self.history(),
            self.history().push(t1),
            self.digits(),
            x,
            M3_R as nat,
            M3_1 as nat,
            t1,
            push_result(self.history(), t1),
        );
    }

    /// Sets the table's start to the current position without recomputing it.
    ///
    /// Used to time pushes alone: the rows and the window are left as they
    /// are, so the table no longer matches the digits.
    pub fn prepare_nop(&mut self)
        requires
            old(self).wf(),
        ensures
            final(self).wf(),
            final(self).digits() == old(self).digits(),
            final(self).room() == PRE_LEN - 1,
            final(self).pos() == old(self).pos(),
            final(self).table_start() == old(self).pos(),
            final(self).rows() == old(self).rows(),
            final(self).window() == old(self).window(),
            final(self).history() == old(self).history(),
    {
        self.pre_start = self.i;
    }
}

impl Data for M3Data {
    closed spec fn wf(&self) -> bool {
        &&& self.window.wf()
        &&& self.window.pos() == self.i
        &&& self.ds@.len() == self.i
        &&& self.pre_start <= self.i
        &&& self.i - self.pre_start < PRE_LEN
        &&& self.rtable@.len() == PRE_LEN
        &&& forall|j: int, x: int|
            0 <= j < PRE_LEN && 0 <= x < 10 ==> #[trigger] self.rtable@[j][x] < M3_1
        &&& forall|k: int| 0 <= k <= self.i ==> #[trigger] self.window.history()[k] < M3_1
    }

    closed spec fn digits(&self) -> Seq<u8> {
        self.ds@
    }

    closed spec fn room(&self) -> nat {
        (PRE_LEN - 1 - (self.i - self.pre_start)) as nat
    }

    open spec fn report(&self, x: u8) -> Option<usize> {
        match self.window_result(x) {
            Some(l) => if l >= 54 && x != 0 {
                Some(l)
            } else {
                None
            },
            None => None,
        }
    }

    closed spec fn window(&self) -> WindowArray {
        self.window
    }

    /// Pushes a digit and reports the length of the shortest suffix divisible
    /// by `M3_1` when it is at least 54 digits and the digit is nonzero.
    fn push(&mut self, x: u8) -> (r: Option<usize>)
        ensures
            old(self).aligned() ==> final(self).aligned(),
            old(self).aligned() ==> match r {
                Some(l) => {
                    &&& l >= 54 && x != 0
                    &&& shortest_multiple_suffix(final(self).digits(), l as int, M3_1 as nat)
                },
                None => true,
            },
            old(self).aligned() ==> forall|l: int|
                #![trigger shortest_multiple_suffix(final(self).digits(), l, M3_1 as nat)]
                shortest_multiple_suffix(final(self).digits(), l, M3_1 as nat) && l < N
                    && old(self).index_holds(x, l) ==> old(self).window_result(x) == Some(l as usize),
            old(self).aligned() ==> r == Self::report_of_digits(old(self).digits(), x),
            old(self).aligned() ==> forall|l: int|
                #![trigger shortest_multiple_suffix(final(self).digits(), l, M3_1 as nat)]
                shortest_multiple_suffix(final(self).digits(), l, M3_1 as nat) && 54 <= l < N
                    && x != 0 && old(self).index_holds(x, l) ==> r == Some(l as usize),
    {
        proof {
            if old(self).aligned() {
                old(self).lemma_window_result_of_digits(x);
                old(self).lemma_report_law(x);
            }
        }
        let ghost o = *self;
        self.i = self.i + 1;
        let t0 = self.window.last();
        let row = self.rtable[self.i - self.pre_start];
        let mut t1: u64 = t0 as u64 + row[x as usize];
        if t1 >= M3_1 {
            t1 = t1 - M3_1;
        }
        proof {
            o.window.lemma_history();
            assert(t0 == o.window.history()[o.i as int]);
            let v = t0 + row[x as int];
            if v >= M3_1 {
                vstd::arithmetic::div_mod::lemma_fundamental_div_mod_converse(v as int, M3_1 as int, 1, v - M3_1);
            } else {
                lemma_small_mod(v as nat, M3_1 as nat);
            }
            assert(t1 == o.next_residue(x));
        }
        let len = self.window.push(t1 as u128);
        self.ds = Ghost(self.ds@.push(x));
        proof {
            self.window.lemma_history();
            assert forall|k: int| 0 <= k <= self.i implies #[trigger] self.window.history()[k]
                < M3_1 by {
                if k < self.i {
                    assert(self.window.history()[k] == o.window.history()[k]);
                }
            }
            if o.aligned() {
                lemma_m3_inverse();
                let ds = o.ds@;
                assert(ds.take(ds.len() as int) =~= ds);
                assert(row_matches_u64(o.rtable@[self.i - o.pre_start], self.i as nat, M3_R as nat, M3_1 as nat));
                lemma_next_residue(ds, x, M3_R as nat, M3_1 as nat, t0 as nat, row[x as int] as nat, t1 as nat);
                lemma_push_aligned(o.window.history(), self.window.history(), ds, x, M3_R as nat, M3_1 as nat,
                    t1 as u128, len);
            }
        }
        match len {
            Some(l) if l >= 54 && x != 0 => Some(l),
            _ => None,
        }
    }

    fn prepare(&mut self)
        ensures
            old(self).start_row_aligned() ==> final(self).table_aligned(),
            final(self).history() == old(self).history(),
            old(self).aligned() ==> final(self).aligned(),
            final(self).pos() == old(self).pos(),
            final(self).table_start() == final(self).pos(),
            old(self).aligned() && old(self).room() > 0 ==> forall|x: u8|
                x < 10 ==> #[trigger] final(self).report(x) == old(self).report(x),
    {
        let ghost o = *self;
        let mut rs = self.rtable[self.i - self.pre_start];
        self.pre_start = self.i;
        let mut k: usize = 0;
        while k < PRE_LEN
            invariant
                0 <= k <= PRE_LEN,
                self.rtable@.len() == PRE_LEN,
                self.i == o.i,
                self.pre_start == o.i,
                self.window == o.window,
                self.ds == o.ds,
                forall|x: int| 0 <= x < 10 ==> #[trigger] rs[x] < M3_1,
                forall|j: int, x: int|
                    0 <= j < PRE_LEN && 0 <= x < 10 ==> #[trigger] self.rtable@[j][x] < M3_1,
                o.start_row_aligned() ==> {
                    &&& forall|j: int|
                        0 <= j < k ==> row_matches_u64(
                            #[trigger] self.rtable@[j],
                            (o.i + j) as nat,
                            M3_R as nat,
                            M3_1 as nat,
                        )
                    &&& forall|x: int|
                        0 <= x < 10 ==> #[trigger] rs[x] == (x as nat * power(
                            M3_R as nat,
                            (o.i + k) as nat,
                        )) % (M3_1 as nat)
                },
            decreases PRE_LEN - k,
        {
            self.rtable.set(k, rs);
            let mut next = rs;
            let mut x: usize = 0;
            while x < 10
                invariant
                    0 <= x <= 10,
                    forall|y: int| 0 <= y < 10 ==> #[trigger] rs[y] < M3_1,
                    forall|y: int| 0 <= y < x ==> #[trigger] next[y] == (rs[y] as nat
                        * M3_R as nat) % M3_1 as nat,
                    forall|y: int| 0 <= y < 10 ==> #[trigger] next[y] < M3_1,
                decreases 10 - x,
            {
                next[x] = m3_mul_r(rs[x]);
                x += 1;
            }
            proof {
                if o.start_row_aligned() {
                    assert forall|y: int| 0 <= y < 10 implies #[trigger] next[y] == (y as nat
                        * power(M3_R as nat, (o.i + k + 1) as nat)) % (M3_1 as nat) by {
                        lemma_row_step(y as nat, (o.i + k) as nat, M3_R as nat, M3_1 as nat, rs[y] as nat);
                    }
                }
            }
            rs = next;
            k += 1;
        }
        proof {
            if o.aligned() && o.room() > 0 {
                assert forall|x: u8| x < 10 implies #[trigger] self.report(x) == o.report(x) by {
                    o.lemma_next_residue_of(x);
                    self.lemma_next_residue_of(x);
                }
            }
        }
    }
}

impl Default for M3Data {
    /// A detector that has read nothing, its table prepared.
    fn default() -> (s: Self)
        ensures
            s.wf(),
            s.aligned(),
            s.digits() == Seq::<u8>::empty(),
            s.room() == PRE_LEN - 1,
    {
        let mut rtable: Vec<[u64; 10]> = Vec::new();
        let mut k: usize = 0;
        while k < PRE_LEN
            invariant
                0 <= k <= PRE_LEN,
                rtable@.len() == k,
                forall|j: int, x: int| 0 <= j < k && 0 <= x < 10 ==> #[trigger] rtable@[j][x] == x,
            decreases PRE_LEN - k,
        {
            rtable.push([0, 1, 2, 3, 4, 5, 6, 7, 8, 9]);
            k += 1;
        }
        let ghost empty: Seq<u8> = Seq::empty();
        let mut s = M3Data {
            i: 0,
            window: WindowArray::new(),
            pre_start: 0,
            rtable,
            ds: Ghost(empty),
        };
        proof {
            assert(s.start_row_aligned()) by {
                assert forall|x: int| 0 <= x < 10 implies #[trigger] s.rtable@[0][x] == (x as nat
                    * power(M3_R as nat, 0)) % (M3_1 as nat) by {
                    assert(power(M3_R as nat, 0) == 1);
                    assert(s.rtable@[0][x] == x);
                    lemma_small_mod(x as nat, M3_1 as nat);
                }
            }
            assert(empty.take(0) =~= empty);
        }
        s.prepare();
        s
    }
}

// ---------------------------------------------------------------------------
// M4

/// `x * M4_R mod M4_1`, computed in 64 bits.
fn m4_mul_r(x: u32) -> (r: u32)
    requires
        x < M4_1,
    ensures
        r == (x as nat * M4_R as nat) % M4_1 as nat,
        r < M4_1,
{
    (x as u64 * M4_R % M4_1 as u64) as u32
}

proof fn lemma_m4_inverse()
    ensures
        inverse_of_ten(M4_R as nat, M4_1 as nat),
{
    vstd::arithmetic::div_mod::lemma_fundamental_div_mod_converse(
        10 * M4_R as int,
        M4_1 as int,
        9,
        1,
    );
}

/// Detects numbers divisible by `M4_1` that end in a nonzero digit, at least 68 digits long.
pub struct M4Data {
    i: usize,
    window: WindowArray,
    pre_start: usize,
    rtable: Vec<[u32; 10]>,
    ds: Ghost<Seq<u8>>,
}

impl M4Data {
    /// Number of digits pushed.
    pub closed spec fn pos(self) -> int {
        self.i as int
    }

    /// The position whose exponent the first table row holds.
    pub closed spec fn table_start(self) -> int {
        self.pre_start as int
    }

    /// The table rows: row `j` is meant to hold `x * R^(table_start + j)`.
    pub closed spec fn rows(self) -> Seq<[u32; 10]> {
        self.rtable@
    }

    /// The residues remembered: position `k` holds the residue after `k` digits.
    pub closed spec fn history(self) -> Seq<u128> {
        self.window.history()
    }

    /// Row `j` of the table holds `x * M4_R^(table_start + j) mod M4_1`.
    pub open spec fn table_aligned(self) -> bool {
        forall|j: int|
            0 <= j < PRE_LEN ==> row_matches_u32(
                #[trigger] self.rows()[j],
                (self.table_start() + j) as nat,
                M4_R as nat,
                M4_1 as nat,
            )
    }

    /// The residues remembered and the table both match the digits pushed.
    pub open spec fn aligned(self) -> bool {
        &&& self.table_aligned()
        &&& history_matches(self.history(), self.digits(), M4_R as nat, M4_1 as nat)
    }

    /// The row that the next `prepare` starts from is the one for the current position.
    pub open spec fn start_row_aligned(self) -> bool {
        row_matches_u32(
            self.rows()[self.pos() - self.table_start()],
            self.pos() as nat,
            M4_R as nat,
            M4_1 as nat,
        )
    }

    /// The residue the next push of `x` computes.
    pub open spec fn next_residue(self, x: u8) -> u128 {
        ((self.history()[self.pos()] + self.rows()[self.pos() + 1 - self.table_start()][x as int])
            % (M4_1 as int)) as u128
    }

    /// What the window reports when the next residue is pushed.
    pub open spec fn window_result(self, x: u8) -> Option<usize> {
        push_result(self.history(), self.next_residue(x))
    }

    /// The index still knows the residue `l` digits back: no residue of
    /// the next residue's bucket has come since that position.
    pub open spec fn index_holds(self, x: u8, l: int) -> bool {
        bucket_quiet(self.history(), bucket_of(self.next_residue(x)), self.pos() + 1 - l, self.pos())
    }

    /// What the invariant says of the accessors.
    pub proof fn lemma_shape(self)
        requires
            self.wf(),
        ensures
            self.pos() == self.digits().len(),
            self.history().len() == self.pos() + 1,
            0 <= self.pos() - self.table_start() < PRE_LEN,
            self.rows().len() == PRE_LEN,
            self.room() == PRE_LEN - 1 - (self.pos() - self.table_start()),
    {
        self.window.lemma_history();
    }

    /// On an aligned detector with room left, the next residue is the
    /// residue of the digits with `x` pushed.
    pub proof fn lemma_next_residue_of(self, x: u8)
        requires
            self.wf(),
            self.aligned(),
            self.room() > 0,
            x < 10,
        ensures
            self.next_residue(x) as nat == residue(self.digits().push(x), M4_R as nat, M4_1 as nat),
    {
        let ds = self.ds@;
        assert(ds.take(ds.len() as int) =~= ds);
        let t0 = self.window.history()[self.i as int];
        let e = self.rtable@[self.i + 1 - self.pre_start][x as int];
        let jj = self.i + 1 - self.pre_start;
        assert(row_matches_u32(self.rows()[jj], (self.table_start() + jj) as nat, M4_R as nat, M4_1 as nat));
        lemma_next_residue(ds, x, M4_R as nat, M4_1 as nat, t0 as nat, e as nat, ((t0 + e) % (M4_1 as int)) as nat);
    }

    /// On an aligned detector with room left, what the window reports on
    /// the next digit depends on the digits pushed alone, whatever the table
    /// start: so `prepare` changes no later result.
    pub proof fn lemma_window_result_of_digits(self, x: u8)
        requires
            self.wf(),
            self.aligned(),
            self.room() > 0,
            x < 10,
        ensures
            self.window_result(x) == push_result(
                prefix_residues(self.digits(), M4_R as nat, M4_1 as nat),
                residue(self.digits().push(x), M4_R as nat, M4_1 as nat) as u128,
            ),
    {
        self.lemma_next_residue_of(x);
        self.window.lemma_history();
        assert(self.history() =~= prefix_residues(self.digits(), M4_R as nat, M4_1 as nat));
    }

    /// What an aligned detector that has read `ds` reports when `x` comes next.
    pub open spec fn report_of_digits(ds: Seq<u8>, x: u8) -> Option<usize> {
        match push_result(
            prefix_residues(ds, M4_R as nat, M4_1 as nat),
            residue(ds.push(x), M4_R as nat, M4_1 as nat) as u128,
        ) {
            Some(l) => if l >= 68 && x != 0 {
                Some(l)
            } else {
                None
            },
            None => None,
        }
    }

    /// What an aligned detector that has read `ds` reports on each digit of
    /// `more`, pushed in turn.
    pub open spec fn reports_of_digits(ds: Seq<u8>, more: Seq<u8>) -> Seq<Option<usize>>
        decreases more.len(),
    {
        if more.len() == 0 {
            Seq::empty()
        } else {
            Self::reports_of_digits(ds, more.drop_last()).push(
                Self::report_of_digits(ds + more.drop_last(), more.last()),
            )
        }
    }

    /// Pushes the digits of `more` in turn and returns each report.
    ///
    /// The reports depend on the digits read before and on `more` alone, not
    /// on where the table starts: so `prepare` changes no later report.
    pub fn push_all(&mut self, more: &[u8]) -> (r: Vec<Option<usize>>)
        requires
            old(self).wf(),
            old(self).aligned(),
            more@.len() <= old(self).room(),
            old(self).digits().len() + more@.len() < usize::MAX,
            forall|k: int| 0 <= k < more@.len() ==> #[trigger] more@[k] < 10,
        ensures
            final(self).wf(),
            final(self).aligned(),
            final(self).digits() == old(self).digits() + more@,
            final(self).room() == old(self).room() - more@.len(),
            r@ == Self::reports_of_digits(old(self).digits(), more@),
    {
        let ghost d0 = self.digits();
        let ghost room0 = self.room();
        let mut r: Vec<Option<usize>> = Vec::new();
        let mut k: usize = 0;
        proof {
            assert(more@.take(0) =~= Seq::<u8>::empty());
            assert(d0 + more@.take(0) =~= d0);
        }
        while k < more.len()
            invariant
                self.wf(),
                self.aligned(),
                k <= more@.len(),
                more@.len() <= room0,
                d0.len() + more@.len() < usize::MAX,
                forall|j: int| 0 <= j < more@.len() ==> #[trigger] more@[j] < 10,
                self.digits() == d0 + more@.take(k as int),
                self.room() == room0 - k,
                r@ == Self::reports_of_digits(d0, more@.take(k as int)),
            decreases more@.len() - k,
        {
            let x = more[k];
            let ghost before = *self;
            let v = self.push(x);
            r.push(v);
            proof {
                let t = more@.take(k + 1);
                assert(t.drop_last() =~= more@.take(k as int));
                assert(t.last() == x);
                assert(d0 + t =~= (d0 + more@.take(k as int)).push(x));
            }
            k += 1;
        }
        proof {
            assert(more@.take(more@.len() as int) =~= more@);
        }
        r
    }

    /// What an aligned detector with room left reports on the digit `x`:
    /// a length `l` only when the last `l` digits, `x` included, are the
    /// shortest suffix that is a multiple of `M4_1`, with `l >= 68 && x != 0`; and every
    /// such shortest suffix below `N` digits that the index still knows.
    pub proof fn lemma_report_law(self, x: u8)
        requires
            self.wf(),
            self.aligned(),
            self.room() > 0,
            x < 10,
        ensures
            match self.report(x) {
                Some(l) => {
                    &&& l >= 68 && x != 0
                    &&& shortest_multiple_suffix(self.digits().push(x), l as int, M4_1 as nat)
                },
                None => true,
            },
            forall|l: int|
                #![trigger shortest_multiple_suffix(self.digits().push(x), l, M4_1 as nat)]
                shortest_multiple_suffix(self.digits().push(x), l, M4_1 as nat) && 68 <= l < N
                    && x != 0 && self.index_holds(x, l) ==> self.report(x) == Some(l as usize),
    {
        lemma_m4_inverse();
        self.lemma_next_residue_of(x);
        self.lemma_shape();
        let t1 = self.next_residue(x);
        lemma_push_aligned(
            self.history(),
            self.history().push(t1),
            self.digits(),
            x,
            M4_R as nat,
            M4_1 as nat,
            t1,
            push_result(self.history(), t1),
        );
    }

    /// Sets the table's start to the current position without recomputing it.
    ///
    /// Used to time pushes alone: the rows and the window are left as they
    /// are, so the table no longer matches the digits.
    pub fn prepare_nop(&mut self)
        requires
            old(self).wf(),
        ensures
            final(self).wf(),
            final(self).digits() == old(self).digits(),
            final(self).room() == PRE_LEN - 1,
            final(self).pos() == old(self).pos(),
            final(self).table_start() == old(self).pos(),
            final(self).rows() == old(self).rows(),
            final(self).window() == old(self).window(),
            final(self).history() == old(self).history(),
    {
        self.pre_start = self.i;
    }
}

impl Data for M4Data {
    closed spec fn wf(&self) -> bool {
        &&& self.window.wf()
        &&& self.window.pos() == self.i
        &&& self.ds@.len() == self.i
        &&& self.pre_start <= self.i
        &&& self.i - self.pre_start < PRE_LEN
        &&& self.rtable@.len() == PRE_LEN
        &&& forall|j: int, x: int|
            0 <= j < PRE_LEN && 0 <= x < 10 ==> #[trigger] self.rtable@[j][x] < M4_1
        &&& forall|k: int| 0 <= k <= self.i ==> #[trigger] self.window.history()[k] < M4_1
    }

    closed spec fn digits(&self) -> Seq<u8> {
        self.ds@
    }

    closed spec fn room(&self) -> nat {
        (PRE_LEN - 1 - (self.i - self.pre_start)) as nat
    }

    open spec fn report(&self, x: u8) -> Option<usize> {
        match self.window_result(x) {
            Some(l) => if l >= 68 && x != 0 {
                Some(l)
            } else {
                None
            },
            None => None,
        }
    }

    closed spec fn window(&self) -> WindowArray {
        self.window
    }

    /// Pushes a digit and reports the length of the shortest suffix divisible
    /// by `M4_1` when it is at least 68 digits and the digit is nonzero.
    fn push(&mut self, x: u8) -> (r: Option<usize>)
        ensures
            old(self).aligned() ==> final(self).aligned(),
            old(self).aligned() ==> match r {
                Some(l) => {
                    &&& l >= 68 && x != 0
                    &&& shortest_multiple_suffix(final(self).digits(), l as int, M4_1 as nat)
                },
                None => true,
            },
            old(self).aligned() ==> forall|l: int|
                #![trigger shortest_multiple_suffix(final(self).digits(), l, M4_1 as nat)]
                shortest_multiple_suffix(final(self).digits(), l, M4_1 as nat) && l < N
                    && old(self).index_holds(x, l) ==> old(self).window_result(x) == Some(l as usize),
            old(self).aligned() ==> r == Self::report_of_digits(old(self).digits(), x),
            old(self).aligned() ==> forall|l: int|
                #![trigger shortest_multiple_suffix(final(self).digits(), l, M4_1 as nat)]
                shortest_multiple_suffix(final(self).digits(), l, M4_1 as nat) && 68 <= l < N
                    && x != 0 && old(self).index_holds(x, l) ==> r == Some(l as usize),
    {
        proof {
            if old(self).aligned() {
                old(self).lemma_window_result_of_digits(x);
                old(self).lemma_report_law(x);
            }
        }
        let ghost o = *self;
        self.i = self.i + 1;
        let t0 = self.window.last();
        let row = self.rtable[self.i - self.pre_start];
        let mut t1: u32 = t0 as u32 + row[x as usize];
        if t1 >= M4_1 {
            t1 = t1 - M4_1;
        }
        proof {
            o.window.lemma_history();
            assert(t0 == o.window.history()[o.i as int]);
            let v = t0 + row[x as int];
            if v >= M4_1 {
                vstd::arithmetic::div_mod::lemma_fundamental_div_mod_converse(v as int, M4_1 as int, 1, v - M4_1);
            } else {
                lemma_small_mod(v as nat, M4_1 as nat);
            }
            assert(t1 == o.next_residue(x));
        }
        let len = self.window.push(t1 as u128);
        self.ds = Ghost(self.ds@.push(x));
        proof {
            self.window.lemma_history();
            assert forall|k: int| 0 <= k <= self.i implies #[trigger] self.window.history()[k]
                < M4_1 by {
                if k < self.i {
                    assert(self.window.history()[k] == o.window.history()[k]);
                }
            }
            if o.aligned() {
                lemma_m4_inverse();
                let ds = o.ds@;
                assert(ds.take(ds.len() as int) =~= ds);
                assert(row_matches_u32(o.rtable@[self.i - o.pre_start], self.i as nat, M4_R as nat, M4_1 as nat));
                lemma_next_residue(ds, x, M4_R as nat, M4_1 as nat, t0 as nat, row[x as int] as nat, t1 as nat);
                lemma_push_aligned(o.window.history(), self.window.history(), ds, x, M4_R as nat, M4_1 as nat,
                    t1 as u128, len);
            }
        }
        match len {
            Some(l) if l >= 68 && x != 0 => Some(l),
            _ => None,
        }
    }

    fn prepare(&mut self)
        ensures
            old(self).start_row_aligned() ==> final(self).table_aligned(),
            final(self).history() == old(self).history(),
            old(self).aligned() ==> final(self).aligned(),
            final(self).pos() == old(self).pos(),
            final(self).table_start() == final(self).pos(),
            old(self).aligned() && old(self).room() > 0 ==> forall|x: u8|
                x < 10 ==> #[trigger] final(self).report(x) == old(self).report(x),
    {
        let ghost o = *self;
        let mut rs = self.rtable[self.i - self.pre_start];
        self.pre_start = self.i;
        let mut k: usize = 0;
        while k < PRE_LEN
            invariant
                0 <= k <= PRE_LEN,
                self.rtable@.len() == PRE_LEN,
                self.i == o.i,
                self.pre_start == o.i,
                self.window == o.window,
                self.ds == o.ds,
                forall|x: int| 0 <= x < 10 ==> #[trigger] rs[x] < M4_1,
                forall|j: int, x: int|
                    0 <= j < PRE_LEN && 0 <= x < 10 ==> #[trigger] self.rtable@[j][x] < M4_1,
                o.start_row_aligned() ==> {
                    &&& forall|j: int|
                        0 <= j < k ==> row_matches_u32(
                            #[trigger] self.rtable@[j],
                            (o.i + j) as nat,
                            M4_R as nat,
                            M4_1 as nat,
                        )
                    &&& forall|x: int|
                        0 <= x < 10 ==> #[trigger] rs[x] == (x as nat * power(
                            M4_R as nat,
                            (o.i + k) as nat,
                        )) % (M4_1 as nat)
                },
            decreases PRE_LEN - k,
        {
            self.rtable.set(k, rs);
            let mut next = rs;
            let mut x: usize = 0;
            while x < 10
                invariant
                    0 <= x <= 10,
                    forall|y: int| 0 <= y < 10 ==> #[trigger] rs[y] < M4_1,
                    forall|y: int| 0 <= y < x ==> #[trigger] next[y] == (rs[y] as nat
                        * M4_R as nat) % M4_1 as nat,
                    forall|y: int| 0 <= y < 10 ==> #[trigger] next[y] < M4_1,
                decreases 10 - x,
            {
                next[x] = m4_mul_r(rs[x]);
                x += 1;
            }
            proof {
                if o.start_row_aligned() {
                    assert forall|y: int| 0 <= y < 10 implies #[trigger] next[y] == (y as nat
                        * power(M4_R as nat, (o.i + k + 1) as nat)) % (M4_1 as nat) by {
                        lemma_row_step(y as nat, (o.i + k) as nat, M4_R as nat, M4_1 as nat, rs[y] as nat);
                    }
                }
            }
            rs = next;
            k += 1;
        }
        proof {
            if o.aligned() && o.room() > 0 {
                assert forall|x: u8| x < 10 implies #[trigger] self.report(x) == o.report(x) by {
                    o.lemma_next_residue_of(x);
                    self.lemma_next_residue_of(x);
                }
            }
        }
    }
}

impl Default for M4Data {
    /// A detector that has read nothing, its table prepared.
    fn default() -> (s: Self)
        ensures
            s.wf(),
            s.aligned(),
            s.digits() == Seq::<u8>::empty(),
            s.room() == PRE_LEN - 1,
    {
        let mut rtable: Vec<[u32; 10]> = Vec::new();
        let mut k: usize = 0;
        while k < PRE_LEN
            invariant
                0 <= k <= PRE_LEN,
                rtable@.len() == k,
                forall|j: int, x: int| 0 <= j < k && 0 <= x < 10 ==> #[trigger] rtable@[j][x] == x,
            decreases PRE_LEN - k,
        {
            rtable.push([0, 1, 2, 3, 4, 5, 6, 7, 8, 9]);
            k += 1;
        }
        let ghost empty: Seq<u8> = Seq::empty();
        let mut s = M4Data {
            i: 0,
            window: WindowArray::new(),
            pre_start: 0,
            rtable,
            ds: Ghost(empty),
        };
        proof {
            assert(s.start_row_aligned()) by {
                assert forall|x: int| 0 <= x < 10 implies #[trigger] s.rtable@[0][x] == (x as nat
                    * power(M4_R as nat, 0)) % (M4_1 as nat) by {
                    assert(power(M4_R as nat, 0) == 1);
                    assert(s.rtable@[0][x] == x);
                    lemma_small_mod(x as nat, M4_1 as nat);
                }
            }
            assert(empty.take(0) =~= empty);
        }
        s.prepare();
        s
    }
}

} // verus!
