//! The submitting side of a connection: digits arrive in buffers, the four
//! detectors watch them, and each number found is posted as HTTP requests,
//! one for the number itself and one more for each trailing zero after it.
use vstd::prelude::*;
use vstd::string::StringSliceAdditionalSpecFns;
use crate::detect::{
    Data, M1Data, M2Data, M3Data, M4Data, N, PRE_LEN, M1_1, M1_R, M2, M2_R, M3_1, M3_R, M4_1, M4_R,
    shortest_multiple_suffix,
};
use crate::task::{is_digits, digit_values};
use crate::post::{decimal, post_request, push_decimal, push_range};

verus! {

/// Size of the buffer that each receive fills.
pub const RECV_LEN: usize = 1024;

/// Most bytes that the requests for one number may take.
pub const OUT_CAP: usize = 4096;

/// Start of every request; the length of the body, a blank line and the
/// body follow.
pub const SUBMIT_HEADER: &'static str = "POST /submit HTTP/1.1\r\nHost: 59.110.124.141:10002\r\nUser-Agent: Go-http-client/1.1\r\nContent-Type: application/x-www-form-urlencoded\r\nContent-Length: ";

/// One request that posts `body`.
pub open spec fn request(body: Seq<u8>) -> Seq<u8> {
    post_request(SUBMIT_HEADER.spec_bytes(), body)
}

/// The first `count` requests for the number of `len` digits that ends
/// `zeros` bytes before the end of `s`: request `t` posts the number
/// followed by `t` of those zeros.
pub open spec fn requests(s: Seq<u8>, len: nat, zeros: nat, count: nat) -> Seq<u8>
    decreases count,
{
    if count == 0 {
        Seq::empty()
    } else {
        requests(s, len, zeros, (count - 1) as nat) + request(
            s.subrange(s.len() - zeros - len, s.len() - zeros + count - 1),
        )
    }
}

/// Appends the request that posts `prev[p_start..]` followed by `buf[b_start..b_end]`.
fn push_request(out: &mut Vec<u8>, prev: &[u8], p_start: usize, buf: &[u8], b_start: usize, b_end: usize)
    requires
        p_start <= prev@.len(),
        b_start <= b_end <= buf@.len(),
        prev@.len() + buf@.len() <= usize::MAX,
    ensures
        final(out)@ == old(out)@ + request(
            prev@.subrange(p_start as int, prev@.len() as int) + buf@.subrange(b_start as int, b_end as int),
        ),
{
    let ghost body = prev@.subrange(p_start as int, prev@.len() as int) + buf@.subrange(
        b_start as int,
        b_end as int,
    );
    let header = SUBMIT_HEADER.as_bytes();
    push_range(out, header, 0, header.len());
    push_decimal(out, (prev.len() - p_start) + (b_end - b_start));
    out.push(13);
    out.push(10);
    out.push(13);
    out.push(10);
    let ghost mid = out@;
    push_range(out, prev, p_start, prev.len());
    push_range(out, buf, b_start, b_end);
    proof {
        assert(header@.subrange(0, header@.len() as int) =~= header@);
        assert(mid =~= old(out)@ + SUBMIT_HEADER.spec_bytes() + decimal(body.len()) + seq![
            13u8,
            10u8,
            13u8,
            10u8,
        ]);
        assert(final(out)@ =~= old(out)@ + request(body));
    }
}

/// The requests that post the number of `len` digits ending `zeros` bytes
/// before the end of `prev` followed by `buf`, once bare and once with each
/// count of those zeros after it, all in one transmission.
///
/// The number may start in `prev`. Nothing is returned when the requests
/// would take more than `OUT_CAP` bytes.
pub fn submission(len: usize, zeros: usize, prev: &[u8], buf: &[u8]) -> (r: Option<Vec<u8>>)
    requires
        zeros <= buf@.len(),
        zeros + len <= prev@.len() + buf@.len(),
        prev@.len() + buf@.len() <= usize::MAX,
    ensures
        match r {
            Some(out) => {
                &&& out@ == requests(prev@ + buf@, len as nat, zeros as nat, zeros as nat + 1)
                &&& out@.len() <= OUT_CAP
            },
            None => requests(prev@ + buf@, len as nat, zeros as nat, zeros as nat + 1).len()
                > OUT_CAP,
        },
{
    let ghost s = prev@ + buf@;
    let p = prev.len();
    let b = buf.len();
    // The number starts in `prev` at `p_start`, or in `buf` at `b_start`.
    let p_start = if p + b - zeros - len < p {
        p + b - zeros - len
    } else {
        p
    };
    let b_start = if b - zeros >= len {
        b - zeros - len
    } else {
        0
    };
    let mut out: Vec<u8> = Vec::new();
    let mut t: usize = 0;
    loop
        invariant_except_break
            out@ == requests(s, len as nat, zeros as nat, t as nat),
        invariant
            zeros <= b == buf@.len(),
            p == prev@.len(),
            s == prev@ + buf@,
            zeros + len <= p + b <= usize::MAX,
            p_start == if p + b - zeros - len < p { p + b - zeros - len } else { p as int },
            b_start == if b - zeros >= len { b - zeros - len } else { 0 },
            t <= zeros,
        ensures
            out@ == requests(s, len as nat, zeros as nat, zeros as nat + 1),
        decreases zeros - t,
    {
        proof {
            let body = s.subrange(s.len() - zeros - len, s.len() - zeros + t);
            assert(prev@.subrange(p_start as int, p as int) + buf@.subrange(
                b_start as int,
                b - (zeros - t),
            ) =~= body);
        }
        push_request(&mut out, prev, p_start, buf, b_start, b - (zeros - t));
        if t == zeros {
            break;
        }
        t += 1;
    }
    if out.len() > OUT_CAP {
        None
    } else {
        Some(out)
    }
}

/// How many `'0'` bytes follow index `i` of `buf`, counting only while the
/// next index stays below `len`, the length of the number found.
pub open spec fn zeros_after(buf: Seq<u8>, i: int, len: int) -> nat
    decreases len - i,
{
    if i + 1 < len && buf[i + 1] == 48u8 {
        1 + zeros_after(buf, i + 1, len)
    } else {
        0
    }
}

proof fn lemma_zeros_after_bound(buf: Seq<u8>, i: int, len: int)
    ensures
        i + zeros_after(buf, i, len) < if i + 1 < len { len } else { i + 1 },
    decreases len - i,
{
    if i + 1 < len && buf[i + 1] == 48u8 {
        lemma_zeros_after_bound(buf, i + 1, len);
    }
}

proof fn lemma_zeros_after_at(buf: Seq<u8>, i: int, len: int, k: int)
    requires
        i < k <= i + zeros_after(buf, i, len),
    ensures
        k < len,
        buf[k] == 48u8,
    decreases len - i,
{
    if k > i + 1 {
        lemma_zeros_after_at(buf, i + 1, len, k);
    }
}

proof fn lemma_zeros_after_stop(buf: Seq<u8>, i: int, len: int)
    ensures
        i + zeros_after(buf, i, len) + 1 < len ==> buf[i + zeros_after(buf, i, len) + 1] != 48u8,
    decreases len - i,
{
    if i + 1 < len && buf[i + 1] == 48u8 {
        lemma_zeros_after_stop(buf, i + 1, len);
    }
}

/// Every byte of `buf` at an index in `[from, to)` is `'0'`.
pub open spec fn all_zero_bytes(buf: Seq<u8>, from: int, to: int) -> bool {
    forall|k: int| from <= k < to ==> #[trigger] buf[k] == 48u8
}

/// The zeros counted after index `i` are the run of `'0'` bytes that starts
/// at `i + 1`, cut only where the index would reach `len`.
pub proof fn lemma_zeros_after_run(buf: Seq<u8>, i: int, len: int)
    ensures
        all_zero_bytes(buf, i + 1, i + 1 + zeros_after(buf, i, len)),
        zeros_after(buf, i, len) > 0 ==> i + zeros_after(buf, i, len) < len,
        i + zeros_after(buf, i, len) + 1 < len ==> buf[i + zeros_after(buf, i, len) + 1] != 48u8,
{
    let z = zeros_after(buf, i, len);
    assert forall|k: int| i + 1 <= k < i + 1 + z implies #[trigger] buf[k] == 48u8 by {
        lemma_zeros_after_at(buf, i, len, k);
    }
    if z > 0 {
        lemma_zeros_after_at(buf, i, len, i + z);
    }
    lemma_zeros_after_stop(buf, i, len);
}

/// Counts the `'0'` bytes after index `i` of `buf` while the next index stays below `len`.
fn count_zeros(buf: &[u8], i: usize, len: usize) -> (z: usize)
    requires
        i < buf@.len() <= usize::MAX,
        len <= buf@.len(),
    ensures
        z == zeros_after(buf@, i as int, len as int),
        i + z < buf@.len(),
        all_zero_bytes(buf@, i + 1, i + 1 + z),
        z > 0 ==> i + z < len,
        i + z + 1 < len ==> buf@[i + z + 1] != 48u8,
{
    proof {
        lemma_zeros_after_bound(buf@, i as int, len as int);
        lemma_zeros_after_run(buf@, i as int, len as int);
    }
    let mut z: usize = 0;
    let mut j = i;
    while j + 1 < len && buf[j + 1] == 48u8
        invariant
            i <= j < buf@.len() <= usize::MAX,
            len <= buf@.len(),
            j == i + z,
            zeros_after(buf@, i as int, len as int) == z + zeros_after(buf@, j as int, len as int),
        decreases len - j,
    {
        z += 1;
        j += 1;
    }
    z
}

/// The zeros counted for `f` are exactly the run of `'0'` bytes in `buf`
/// after the number's last digit, cut only where the index would reach the
/// number's length.
pub open spec fn zero_run_counted(f: Report, buf: Seq<u8>) -> bool {
    &&& all_zero_bytes(buf, f.end - f.zeros + 1, f.end + 1)
    &&& f.zeros > 0 ==> f.end < f.len
    &&& f.end + 1 < f.len ==> buf[f.end + 1] != 48u8
}

/// A number found by one of the detectors.
#[derive(Clone, Copy, Debug, PartialEq, Eq)]
pub struct Report {
    /// Which detector found it, from 1 to 4.
    pub k: u8,
    /// Its number of digits.
    pub len: usize,
    /// How many `'0'` bytes after it were counted.
    pub zeros: usize,
    /// Index in the buffer of the last byte counted.
    pub end: usize,
}

/// What detector `k` reporting `r` on the byte at index `i` of `buf` adds.
pub open spec fn reports_of(k: u8, r: Option<usize>, buf: Seq<u8>, i: int) -> Seq<Report> {
    match r {
        Some(l) => {
            let z = zeros_after(buf, i, l as int);
            seq![Report { k, len: l, zeros: z as usize, end: (i + z) as usize }]
        },
        None => Seq::empty(),
    }
}

proof fn lemma_reports_zero_runs(k: u8, r: Option<usize>, buf: Seq<u8>, i: int)
    requires
        0 <= i < buf.len() <= usize::MAX,
        r matches Some(l) ==> l <= buf.len(),
    ensures
        forall|j: int|
            0 <= j < reports_of(k, r, buf, i).len() ==> zero_run_counted(
                #[trigger] reports_of(k, r, buf, i)[j],
                buf,
            ),
{
    if let Some(l) = r {
        lemma_zeros_after_run(buf, i, l as int);
        lemma_zeros_after_bound(buf, i, l as int);
        let z = zeros_after(buf, i, l as int);
        let f = reports_of(k, r, buf, i)[0];
        assert(f.zeros as int == z && f.end as int == i + z);
        assert(zero_run_counted(f, buf));
    }
}

/// The last `n` bytes of `s`, or all of them when there are fewer.
pub open spec fn keep_last(s: Seq<u8>, n: nat) -> Seq<u8> {
    if s.len() > n {
        s.skip(s.len() - n)
    } else {
        s
    }
}

proof fn lemma_keep_last_append(a: Seq<u8>, r: Seq<u8>, n: nat)
    ensures
        keep_last(keep_last(a, n) + r, n) == keep_last(a + r, n),
{
    assert(keep_last(keep_last(a, n) + r, n) =~= keep_last(a + r, n));
}

/// The four detectors of one connection, the bytes kept from earlier
/// buffers, and the bytes of the current buffer read so far.
pub struct Session {
    m1: M1Data,
    m2: M2Data,
    m3: M3Data,
    m4: M4Data,
    prev: Vec<u8>,
    round: Vec<u8>,
    seen: Ghost<Seq<u8>>,
}

impl Session {
    /// Every byte read in this connection.
    pub closed spec fn seen(self) -> Seq<u8> {
        self.seen@
    }

    /// The last `N` bytes, at most, of the buffers finished so far.
    pub closed spec fn kept(self) -> Seq<u8> {
        self.prev@
    }

    /// The bytes of the current buffer read so far.
    pub closed spec fn round(self) -> Seq<u8> {
        self.round@
    }

    /// The first detector.
    pub closed spec fn m1(self) -> M1Data {
        self.m1
    }

    /// The second detector.
    pub closed spec fn m2(self) -> M2Data {
        self.m2
    }

    /// The third detector.
    pub closed spec fn m3(self) -> M3Data {
        self.m3
    }

    /// The fourth detector.
    pub closed spec fn m4(self) -> M4Data {
        self.m4
    }

    /// The internal invariant.
    pub closed spec fn wf(self) -> bool {
        let before = self.seen@.take(self.seen@.len() - self.round@.len());
        &&& self.m1.wf() && self.m2.wf() && self.m3.wf() && self.m4.wf()
        &&& self.m1.aligned() && self.m2.aligned() && self.m3.aligned() && self.m4.aligned()
        &&& self.m1.digits() == digit_values(self.seen@)
        &&& self.m2.digits() == digit_values(self.seen@)
        &&& self.m3.digits() == digit_values(self.seen@)
        &&& self.m4.digits() == digit_values(self.seen@)
        &&& self.m1.room() == PRE_LEN - 1 - self.round@.len()
        &&& self.m2.room() == PRE_LEN - 1 - self.round@.len()
        &&& self.m3.room() == PRE_LEN - 1 - self.round@.len()
        &&& self.m4.room() == PRE_LEN - 1 - self.round@.len()
        &&& is_digits(self.seen@)
        &&& self.round@.len() < PRE_LEN
        &&& self.round@.len() <= self.seen@.len()
        &&& self.round@ == self.seen@.skip(self.seen@.len() - self.round@.len())
        &&& self.prev@ == keep_last(before, N as nat)
    }

    /// A connection that has read nothing.
    pub fn new() -> (r: Self)
        ensures
            r.wf(),
            r.seen() == Seq::<u8>::empty(),
            r.kept() == Seq::<u8>::empty(),
            r.round() == Seq::<u8>::empty(),
    {
        let ghost empty: Seq<u8> = Seq::empty();
        let r = Session {
            m1: M1Data::default(),
            m2: M2Data::default(),
            m3: M3Data::default(),
            m4: M4Data::default(),
            prev: Vec::new(),
            round: Vec::new(),
            seen: Ghost(empty),
        };
        proof {
            assert(digit_values(empty) =~= empty);
            assert(empty.take(0) =~= empty);
            assert(empty.skip(0) =~= empty);
        }
        r
    }

    /// The bytes kept from the buffers finished so far.
    pub fn prev(&self) -> (r: &[u8])
        ensures
            r@ == self.kept(),
    {
        self.prev.as_slice()
    }

    /// Reads the next byte of the receive buffer `buf`, the one at the index
    /// given by how many bytes of it were read, and returns what the
    /// detectors report on it, in detector order.
    #[verifier::rlimit(40)]
    pub fn push_next(&mut self, buf: &[u8]) -> (found: Vec<Report>)
        requires
            old(self).wf(),
            buf@.len() == RECV_LEN,
            old(self).round().len() < PRE_LEN - 1,
            48 <= buf@[old(self).round().len() as int] <= 57,
            old(self).seen().len() + 1 < usize::MAX,
        ensures
            final(self).wf(),
            final(self).seen() == old(self).seen().push(buf@[old(self).round().len() as int]),
            final(self).round() == old(self).round().push(buf@[old(self).round().len() as int]),
            final(self).kept() == old(self).kept(),
            ({
                let i = old(self).round().len() as int;
                let x = (buf@[i] - 48) as u8;
                found@ == reports_of(1, old(self).m1().report(x), buf@, i)
                    + reports_of(2, old(self).m2().report(x), buf@, i)
                    + reports_of(3, old(self).m3().report(x), buf@, i)
                    + reports_of(4, old(self).m4().report(x), buf@, i)
            }),
            forall|j: int|
                0 <= j < found@.len() ==> {
                    let f = #[trigger] found@[j];
                    &&& f.end == old(self).round().len() + f.zeros
                    &&& f.end < buf@.len()
                    &&& 1 <= f.len < N
                    &&& f.zeros + f.len <= old(self).kept().len() + f.end + 1
                    &&& zero_run_counted(f, buf@)
                },
            forall|j: int|
                0 <= j < found@.len() ==> {
                    let f = #[trigger] found@[j];
                    let ds = digit_values(final(self).seen());
                    let l = f.len as int;
                    &&& f.k == 1 ==> shortest_multiple_suffix(ds, l, M1_1 as nat)
                    &&& f.k == 2 ==> shortest_multiple_suffix(ds, l, M2 as nat)
                    &&& f.k == 3 ==> shortest_multiple_suffix(ds, l, M3_1 as nat)
                    &&& f.k == 4 ==> shortest_multiple_suffix(ds, l, M4_1 as nat)
                },
    {
        let i = self.round.len();
        let b = buf[i];
        let x = b - 48;
        let ghost o = *self;
        let ghost before = o.seen@.take(o.seen@.len() - o.round@.len());
        proof {
            assert(digit_values(o.seen@.push(b)) =~= digit_values(o.seen@).push(x));
        }
        let mut found: Vec<Report> = Vec::new();
        let r1 = self.m1.push(x);
        if let Some(l) = r1 {
            let z = count_zeros(buf, i, l);
            found.push(Report { k: 1, len: l, zeros: z, end: i + z });
        }
        let r2 = self.m2.push(x);
        if let Some(l) = r2 {
            let z = count_zeros(buf, i, l);
            found.push(Report { k: 2, len: l, zeros: z, end: i + z });
        }
        let r3 = self.m3.push(x);
        if let Some(l) = r3 {
            let z = count_zeros(buf, i, l);
            found.push(Report { k: 3, len: l, zeros: z, end: i + z });
        }
        let r4 = self.m4.push(x);
        if let Some(l) = r4 {
            let z = count_zeros(buf, i, l);
            found.push(Report { k: 4, len: l, zeros: z, end: i + z });
        }
        self.round.push(b);
        self.seen = Ghost(o.seen@.push(b));
        proof {
            let s2 = self.seen@;
            assert(s2.take(s2.len() - self.round@.len()) =~= before);
            assert(self.round@ =~= s2.skip(s2.len() - self.round@.len()));
            assert forall|k: int| 0 <= k < s2.len() implies 48 <= #[trigger] s2[k] <= 57 by {
                if k < o.seen@.len() {
                    assert(s2[k] == o.seen@[k]);
                }
            }
            assert(found@ =~= reports_of(1, r1, buf@, i as int) + reports_of(2, r2, buf@, i as int)
                + reports_of(3, r3, buf@, i as int) + reports_of(4, r4, buf@, i as int));
            lemma_reports_zero_runs(1, r1, buf@, i as int);
            lemma_reports_zero_runs(2, r2, buf@, i as int);
            lemma_reports_zero_runs(3, r3, buf@, i as int);
            lemma_reports_zero_runs(4, r4, buf@, i as int);
            assert(o.prev@.len() == if before.len() > N { N as int } else { before.len() as int });
        }
        found
    }

    /// Ends the current buffer: its bytes join those kept, of which the last
    /// `N` stay, and the detectors are prepared for the next buffer.
    pub fn finish(&mut self)
        requires
            old(self).wf(),
        ensures
            final(self).wf(),
            final(self).seen() == old(self).seen(),
            final(self).round() == Seq::<u8>::empty(),
            final(self).kept() == keep_last(old(self).kept() + old(self).round(), N as nat),
    {
        let ghost o = *self;
        self.prev.append(&mut self.round);
        if self.prev.len() > N {
            let at = self.prev.len() - N;
            self.prev = self.prev.split_off(at);
        }
        self.m1.prepare();
        self.m2.prepare();
        self.m3.prepare();
        self.m4.prepare();
        proof {
            let s = o.seen@;
            let before = s.take(s.len() - o.round@.len());
            assert(before + o.round@ =~= s);
            lemma_keep_last_append(before, o.round@, N as nat);
            assert(self.prev@ =~= keep_last(o.prev@ + o.round@, N as nat));
            assert(s.take(s.len() as int) =~= s);
            assert(s.skip(s.len() as int) =~= self.round@);
        }
    }
}

} // verus!
