//! The HTTP requests that post a number: a fixed start of request, the
//! length of the body in decimal, a blank line and the body.
use vstd::prelude::*;
use crate::residue::digits_value;
use crate::task::{digit_values, is_digits};

verus! {

/// The decimal digits of `n`, most significant first, as ASCII bytes.
pub open spec fn decimal(n: nat) -> Seq<u8>
    decreases n,
{
    if n < 10 {
        seq![(48 + n) as u8]
    } else {
        decimal(n / 10).push((48 + n % 10) as u8)
    }
}

/// `decimal(n)` writes `n`: ASCII digits, without a leading zero, whose value is `n`.
pub proof fn lemma_decimal_writes(n: nat)
    ensures
        decimal(n).len() >= 1,
        is_digits(decimal(n)),
        digits_value(digit_values(decimal(n))) == n,
        n > 0 ==> decimal(n)[0] != 48u8,
    decreases n,
{
    let d = decimal(n);
    if n < 10 {
        assert(digit_values(d) =~= seq![n as u8]);
        assert(seq![n as u8].drop_last() =~= Seq::<u8>::empty());
        assert(digits_value(Seq::<u8>::empty()) == 0);
        assert(digits_value(seq![n as u8]) == n);
    } else {
        let e = decimal(n / 10);
        lemma_decimal_writes(n / 10);
        let b = (48 + n % 10) as u8;
        assert(d == e.push(b));
        assert(digit_values(d) =~= digit_values(e).push((n % 10) as u8));
        assert(digit_values(d).drop_last() =~= digit_values(e));
        assert(digits_value(digit_values(d)) == digits_value(digit_values(e)) * 10 + n % 10);
        assert(d[0] == e[0]);
    }
}

/// The request that posts `body` after the start of request `header`.
pub open spec fn post_request(header: Seq<u8>, body: Seq<u8>) -> Seq<u8> {
    header + decimal(body.len()) + seq![13u8, 10u8, 13u8, 10u8] + body
}

/// `n` ASCII zeros.
pub open spec fn zero_bytes(n: nat) -> Seq<u8> {
    Seq::new(n, |i: int| 48u8)
}

/// The first `count` requests for `number`: request `t` posts it followed by
/// `t` zeros.
pub open spec fn posts(header: Seq<u8>, number: Seq<u8>, count: nat) -> Seq<u8>
    decreases count,
{
    if count == 0 {
        Seq::empty()
    } else {
        posts(header, number, (count - 1) as nat) + post_request(
            header,
            number + zero_bytes((count - 1) as nat),
        )
    }
}

/// Appends the decimal digits of `n`.
pub fn push_decimal(out: &mut Vec<u8>, n: usize)
    ensures
        final(out)@ == old(out)@ + decimal(n as nat),
    decreases n,
{
    if n >= 10 {
        push_decimal(out, n / 10);
    }
    out.push((48 + n % 10) as u8);
    assert(out@ =~= old(out)@ + decimal(n as nat));
}

/// Appends `s[from..to]`.
pub fn push_range(out: &mut Vec<u8>, s: &[u8], from: usize, to: usize)
    requires
        from <= to <= s@.len(),
    ensures
        final(out)@ == old(out)@ + s@.subrange(from as int, to as int),
{
    let mut k = from;
    while k < to
        invariant
            from <= k <= to <= s@.len(),
            out@ == old(out)@ + s@.subrange(from as int, k as int),
        decreases to - k,
    {
        out.push(s[k]);
        k += 1;
        assert(out@ =~= old(out)@ + s@.subrange(from as int, k as int));
    }
}

/// The requests that post `number` once bare and once with each count of
/// zeros after it, from one up to `zeros`.
pub fn post_number(header: &[u8], number: &[u8], zeros: usize) -> (r: Vec<u8>)
    requires
        zeros <= 10,
        number@.len() + 10 <= usize::MAX,
    ensures
        r@ == posts(header@, number@, zeros as nat + 1),
{
    let tens: [u8; 10] = [48, 48, 48, 48, 48, 48, 48, 48, 48, 48];
    let mut out: Vec<u8> = Vec::new();
    let mut i: usize = 0;
    while i <= zeros
        invariant
            zeros <= 10,
            number@.len() + 10 <= usize::MAX,
            tens@ == zero_bytes(10),
            i <= zeros + 1,
            out@ == posts(header@, number@, i as nat),
        decreases zeros + 1 - i,
    {
        let ghost before = out@;
        push_range(&mut out, header, 0, header.len());
        push_decimal(&mut out, number.len() + i);
        out.push(13);
        out.push(10);
        out.push(13);
        out.push(10);
        let ghost mid = out@;
        push_range(&mut out, number, 0, number.len());
        push_range(&mut out, &tens, 0, i);
        proof {
            let body = number@ + zero_bytes(i as nat);
            assert(header@.subrange(0, header@.len() as int) =~= header@);
            assert(number@.subrange(0, number@.len() as int) =~= number@);
            assert(tens@.subrange(0, i as int) =~= zero_bytes(i as nat));
            assert(mid =~= before + header@ + decimal(body.len()) + seq![13u8, 10u8, 13u8, 10u8]);
            assert(out@ =~= before + post_request(header@, body));
        }
        i += 1;
    }
    out
}

} // verus!
