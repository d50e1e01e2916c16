//! The four tasks of the client, run in one of two fixed orders over each run of
//! bytes received: the first task that finds a number wins, and then every
//! task starts afresh.
use vstd::prelude::*;
use crate::rem::{N, M1, M2, M3_1, M3_2, M3_3, M4_3, M4_7, M4_11};
use crate::scan::{
    Data, M1Data, M2Data, M3Data, M3FullData, M4Data, lemma_m1_finds_multiples,
    lemma_m3_full_finds_multiples, lemma_m4_finds_multiples,
};
use crate::task::{Found, Task, append_outcome, finds, is_digits, prefix_through, value_from};

verus! {

/// Appending `bytes` after `seen` gives the scanner `T` no number at all.
pub open spec fn none_found<T: Data>(seen: Seq<u8>, bytes: Seq<u8>) -> bool {
    append_outcome::<T>(seen, bytes, None, seen + bytes)
}

/// Appending `bytes` after `seen` makes the task with scanner `T` report
/// `fd`, and `number` is the digits of the number it reports.
pub open spec fn found_by<T: Data>(seen: Seq<u8>, bytes: Seq<u8>, fd: Found, number: Seq<u8>) -> bool {
    let s = prefix_through(seen, bytes, fd.end - fd.zeros);
    &&& append_outcome::<T>(seen, bytes, Some(fd), s)
    &&& number == s.subrange(s.len() - fd.len, s.len() as int)
}

/// The last `l` bytes of `s` write a number of at most `N` digits, without
/// a leading zero.
pub open spec fn ends_in_number(s: Seq<u8>, l: int) -> bool {
    &&& 1 <= l <= N
    &&& l <= s.len()
    &&& s[s.len() - l] != 48u8
}

/// Task 1 finds exactly the multiples of `M1`.
pub proof fn lemma_task_one_finds(s: Seq<u8>, l: int)
    ensures
        finds::<M1Data>(s, l) <==> ends_in_number(s, l) && value_from(s, s.len() - l) % (M1 as nat)
            == 0,
{
    lemma_m1_finds_multiples(value_from(s, s.len() - l));
}

/// Task 2 finds exactly the multiples of `M2`.
pub proof fn lemma_task_two_finds(s: Seq<u8>, l: int)
    ensures
        finds::<M2Data>(s, l) <==> ends_in_number(s, l) && value_from(s, s.len() - l) % (M2 as nat)
            == 0,
{
}

/// Task 3 finds exactly the multiples of `M3_1`.
pub proof fn lemma_task_three_finds(s: Seq<u8>, l: int)
    ensures
        finds::<M3Data>(s, l) <==> ends_in_number(s, l) && value_from(s, s.len() - l) % (M3_1 as nat)
            == 0,
{
}

/// Task 3 with the full check finds exactly the multiples of
/// `M3_1 * M3_2 * M3_3`.
pub proof fn lemma_task_three_full_finds(s: Seq<u8>, l: int)
    ensures
        finds::<M3FullData>(s, l) <==> ends_in_number(s, l) && value_from(s, s.len() - l) % (M3_1 as nat
            * M3_2 as nat * M3_3 as nat) == 0,
{
    lemma_m3_full_finds_multiples(value_from(s, s.len() - l));
}

/// Task 4 finds exactly the multiples of `3^50 * 7^30 * 11^20`.
pub proof fn lemma_task_four_finds(s: Seq<u8>, l: int)
    ensures
        finds::<M4Data>(s, l) <==> ends_in_number(s, l) && value_from(s, s.len() - l) % (M4_3 as nat
            * M4_7 as nat * M4_11 as nat) == 0,
{
    lemma_m4_finds_multiples(value_from(s, s.len() - l));
}

/// The number `number` that a task reports out of `s` is its last `len` bytes.
proof fn lemma_number_value(s: Seq<u8>, len: int, number: Seq<u8>)
    requires
        1 <= len <= s.len(),
        number == s.subrange(s.len() - len, s.len() as int),
    ensures
        value_from(number, 0) == value_from(s, s.len() - len),
        number.len() == len,
        number[0] == s[s.len() - len],
{
    assert(number.subrange(0, number.len() as int) =~= number);
}

/// A number found by one of the tasks.
#[derive(Debug)]
pub struct Hit {
    /// The number of the task that found it.
    pub k: u8,
    /// Where it was found.
    pub found: Found,
    /// Its digits, as ASCII bytes.
    pub number: Vec<u8>,
}

/// The tasks for the four moduli, which have all taken the same bytes.
pub struct Client {
    t1: Task<M1Data>,
    t2: Task<M2Data>,
    t3: Task<M3Data>,
    t4: Task<M4Data>,
}

impl Client {
    /// The bytes every task has taken since they last started afresh.
    pub closed spec fn seen(self) -> Seq<u8> {
        self.t1.seen()
    }

    /// Each task is well formed and has its own number.
    closed spec fn tasks_wf(self) -> bool {
        &&& self.t1.wf() && self.t2.wf() && self.t3.wf() && self.t4.wf()
        &&& self.t1.id() == 1 && self.t2.id() == 2 && self.t3.id() == 3 && self.t4.id() == 4
    }

    /// The internal invariant.
    pub closed spec fn wf(self) -> bool {
        &&& self.tasks_wf()
        &&& self.t2.seen() == self.t1.seen()
        &&& self.t3.seen() == self.t1.seen()
        &&& self.t4.seen() == self.t1.seen()
    }

    /// Tasks that have taken nothing.
    pub fn new() -> (r: Self)
        ensures
            r.wf(),
            r.seen() == Seq::<u8>::empty(),
    {
        Client { t1: Task::new(1), t2: Task::new(2), t3: Task::new(3), t4: Task::new(4) }
    }

    /// Number of bytes taken since the tasks last started afresh.
    pub fn len(&self) -> (r: usize)
        requires
            self.wf(),
        ensures
            r == self.seen().len(),
    {
        self.t1.len()
    }

    fn clear(&mut self)
        requires
            old(self).tasks_wf(),
        ensures
            final(self).wf(),
            final(self).seen() == Seq::<u8>::empty(),
    {
        self.t1.clear();
        self.t2.clear();
        self.t3.clear();
        self.t4.clear();
    }

    /// Runs the tasks over `bytes` in the order 4, 1, 3, 2, each over all of
    /// them; the first that finds a number reports it with its digits, and
    /// then all tasks start afresh.
    pub fn append(&mut self, bytes: &[u8]) -> (r: Option<Hit>)
        requires
            old(self).wf(),
            is_digits(bytes@),
            old(self).seen().len() + bytes@.len() < usize::MAX,
        ensures
            final(self).wf(),
            ({
                let seen = old(self).seen();
                let b = bytes@;
                match r {
                    None => {
                        &&& final(self).seen() == seen + b
                        &&& none_found::<M4Data>(seen, b) && none_found::<M1Data>(seen, b)
                        &&& none_found::<M3Data>(seen, b) && none_found::<M2Data>(seen, b)
                    },
                    Some(h) => {
                        &&& final(self).seen() == Seq::<u8>::empty()
                        &&& {
                            ||| h.k == 4 && found_by::<M4Data>(seen, b, h.found, h.number@)
                            ||| h.k == 1 && none_found::<M4Data>(seen, b) && found_by::<M1Data>(
                                seen,
                                b,
                                h.found,
                                h.number@,
                            )
                            ||| h.k == 3 && none_found::<M4Data>(seen, b) && none_found::<M1Data>(
                                seen,
                                b,
                            ) && found_by::<M3Data>(seen, b, h.found, h.number@)
                            ||| h.k == 2 && none_found::<M4Data>(seen, b) && none_found::<M1Data>(
                                seen,
                                b,
                            ) && none_found::<M3Data>(seen, b) && found_by::<M2Data>(
                                seen,
                                b,
                                h.found,
                                h.number@,
                            )
                        }
                    },
                }
            }),
            match r {
                Some(h) => {
                    &&& ends_in_number(h.number@, h.number@.len() as int)
                    &&& h.k == 1 ==> value_from(h.number@, 0) % (M1 as nat) == 0
                    &&& h.k == 2 ==> value_from(h.number@, 0) % (M2 as nat) == 0
                    &&& h.k == 3 ==> value_from(h.number@, 0) % (M3_1 as nat) == 0
                    &&& h.k == 4 ==> value_from(h.number@, 0) % (M4_3 as nat * M4_7 as nat
                        * M4_11 as nat) == 0
                },
                None => true,
            },
    {
        if let Some(fd) = self.t4.append(bytes) {
            let number = self.t4.number(fd.start, fd.len);
            proof {
                lemma_task_four_finds(self.t4.seen(), fd.len as int);
                lemma_number_value(self.t4.seen(), fd.len as int, number@);
            }
            self.clear();
            return Some(Hit { k: 4, found: fd, number });
        }
        if let Some(fd) = self.t1.append(bytes) {
            let number = self.t1.number(fd.start, fd.len);
            proof {
                lemma_task_one_finds(self.t1.seen(), fd.len as int);
                lemma_number_value(self.t1.seen(), fd.len as int, number@);
            }
            self.clear();
            return Some(Hit { k: 1, found: fd, number });
        }
        if let Some(fd) = self.t3.append(bytes) {
            let number = self.t3.number(fd.start, fd.len);
            proof {
                lemma_task_three_finds(self.t3.seen(), fd.len as int);
                lemma_number_value(self.t3.seen(), fd.len as int, number@);
            }
            self.clear();
            return Some(Hit { k: 3, found: fd, number });
        }
        if let Some(fd) = self.t2.append(bytes) {
            let number = self.t2.number(fd.start, fd.len);
            proof {
                lemma_task_two_finds(self.t2.seen(), fd.len as int);
                lemma_number_value(self.t2.seen(), fd.len as int, number@);
            }
            self.clear();
            return Some(Hit { k: 2, found: fd, number });
        }
        None
    }
}

/// The tasks for the four moduli, which have all taken the same bytes,
/// with the third checking all three prime factors of its modulus, run in
/// the order 1, 3, 2, 4.
pub struct CheckedClient {
    t1: Task<M1Data>,
    t2: Task<M2Data>,
    t3: Task<M3FullData>,
    t4: Task<M4Data>,
}

impl CheckedClient {
    /// The bytes every task has taken since they last started afresh.
    pub closed spec fn seen(self) -> Seq<u8> {
        self.t1.seen()
    }

    /// Each task is well formed and has its own number.
    closed spec fn tasks_wf(self) -> bool {
        &&& self.t1.wf() && self.t2.wf() && self.t3.wf() && self.t4.wf()
        &&& self.t1.id() == 1 && self.t2.id() == 2 && self.t3.id() == 3 && self.t4.id() == 4
    }

    /// The internal invariant.
    pub closed spec fn wf(self) -> bool {
        &&& self.tasks_wf()
        &&& self.t2.seen() == self.t1.seen()
        &&& self.t3.seen() == self.t1.seen()
        &&& self.t4.seen() == self.t1.seen()
    }

    /// Tasks that have taken nothing.
    pub fn new() -> (r: Self)
        ensures
            r.wf(),
            r.seen() == Seq::<u8>::empty(),
    {
        CheckedClient { t1: Task::new(1), t2: Task::new(2), t3: Task::new(3), t4: Task::new(4) }
    }

    /// Number of bytes taken since the tasks last started afresh.
    pub fn len(&self) -> (r: usize)
        requires
            self.wf(),
        ensures
            r == self.seen().len(),
    {
        self.t1.len()
    }

    fn clear(&mut self)
        requires
            old(self).tasks_wf(),
        ensures
            final(self).wf(),
            final(self).seen() == Seq::<u8>::empty(),
    {
        self.t1.clear();
        self.t2.clear();
        self.t3.clear();
        self.t4.clear();
    }

    /// Runs the tasks over `bytes` in the order 1, 3, 2, 4, each over all of
    /// them; the first that finds a number reports it with its digits, and
    /// then all tasks start afresh.
    pub fn append(&mut self, bytes: &[u8]) -> (r: Option<Hit>)
        requires
            old(self).wf(),
            is_digits(bytes@),
            old(self).seen().len() + bytes@.len() < usize::MAX,
        ensures
            final(self).wf(),
            ({
                let seen = old(self).seen();
                let b = bytes@;
                match r {
                    None => {
                        &&& final(self).seen() == seen + b
                        &&& none_found::<M1Data>(seen, b) && none_found::<M3FullData>(seen, b)
                        &&& none_found::<M2Data>(seen, b) && none_found::<M4Data>(seen, b)
                    },
                    Some(h) => {
                        &&& final(self).seen() == Seq::<u8>::empty()
                        &&& {
                            ||| h.k == 1 && found_by::<M1Data>(seen, b, h.found, h.number@)
                            ||| h.k == 3 && none_found::<M1Data>(seen, b) && found_by::<M3FullData>(
                                seen,
                                b,
                                h.found,
                                h.number@,
                            )
                            ||| h.k == 2 && none_found::<M1Data>(seen, b) && none_found::<M3FullData>(
                                seen,
                                b,
                            ) && found_by::<M2Data>(seen, b, h.found, h.number@)
                            ||| h.k == 4 && none_found::<M1Data>(seen, b) && none_found::<M3FullData>(
                                seen,
                                b,
                            ) && none_found::<M2Data>(seen, b) && found_by::<M4Data>(
                                seen,
                                b,
                                h.found,
                                h.number@,
                            )
                        }
                    },
                }
            }),
            match r {
                Some(h) => {
                    &&& ends_in_number(h.number@, h.number@.len() as int)
                    &&& h.k == 1 ==> value_from(h.number@, 0) % (M1 as nat) == 0
                    &&& h.k == 2 ==> value_from(h.number@, 0) % (M2 as nat) == 0
                    &&& h.k == 3 ==> value_from(h.number@, 0) % (M3_1 as nat * M3_2 as nat * M3_3 as nat) == 0
                    &&& h.k == 4 ==> value_from(h.number@, 0) % (M4_3 as nat * M4_7 as nat
                        * M4_11 as nat) == 0
                },
                None => true,
            },
    {
        if let Some(fd) = self.t1.append(bytes) {
            let number = self.t1.number(fd.start, fd.len);
            proof {
                lemma_task_one_finds(self.t1.seen(), fd.len as int);
                lemma_number_value(self.t1.seen(), fd.len as int, number@);
            }
            self.clear();
            return Some(Hit { k: 1, found: fd, number });
        }
        if let Some(fd) = self.t3.append(bytes) {
            let number = self.t3.number(fd.start, fd.len);
            proof {
                lemma_task_three_full_finds(self.t3.seen(), fd.len as int);
                lemma_number_value(self.t3.seen(), fd.len as int, number@);
            }
            self.clear();
            return Some(Hit { k: 3, found: fd, number });
        }
        if let Some(fd) = self.t2.append(bytes) {
            let number = self.t2.number(fd.start, fd.len);
            proof {
                lemma_task_two_finds(self.t2.seen(), fd.len as int);
                lemma_number_value(self.t2.seen(), fd.len as int, number@);
            }
            self.clear();
            return Some(Hit { k: 2, found: fd, number });
        }
        if let Some(fd) = self.t4.append(bytes) {
            let number = self.t4.number(fd.start, fd.len);
            proof {
                lemma_task_four_finds(self.t4.seen(), fd.len as int);
                lemma_number_value(self.t4.seen(), fd.len as int, number@);
            }
            self.clear();
            return Some(Hit { k: 4, found: fd, number });
        }
        None
    }
}

} // verus!
