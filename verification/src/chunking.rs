//! Cutting a payload into bounded slices.

use vstd::prelude::*;

verus! {

/// Upper bound on the number of characters in one slice on the wire.
pub const SLICE_LENGTH: usize = 100;

/// How many slices a payload of `len` characters is cut into: `len / bound`
/// rounded up, and one at least.
pub open spec fn slice_count(len: nat, bound: nat) -> nat {
    let rounded_up = (len + bound - 1) / (bound as int);
    if rounded_up < 1 {
        1
    } else {
        rounded_up as nat
    }
}

/// The slice at `index`: `bound` characters from `index * bound` on, or what
/// is left of the payload.
pub open spec fn payload_slice(payload: Seq<char>, bound: nat, index: int) -> Seq<char> {
    let start = index * bound;
    let end = if start + bound <= payload.len() {
        start + bound
    } else {
        payload.len() as int
    };
    payload.subrange(start, end)
}

/// The slices of a payload, in order.
pub open spec fn split_spec(payload: Seq<char>, bound: nat) -> Seq<Seq<char>> {
    Seq::new(slice_count(payload.len(), bound), |index: int| payload_slice(payload, bound, index))
}

/// The slices put back together, first to last.
pub open spec fn joined(slices: Seq<Seq<char>>) -> Seq<char>
    decreases slices.len(),
{
    if slices.len() == 0 {
        Seq::empty()
    } else {
        joined(slices.drop_last()) + slices.last()
    }
}

/// The last slice starts inside the payload, or at its end when the payload is
/// empty: `(count - 1) * bound <= len <= count * bound`.
pub proof fn lemma_slice_count_bounds(len: nat, bound: nat)
    requires
        bound > 0,
    ensures
        slice_count(len, bound) >= 1,
        (slice_count(len, bound) - 1) * bound <= len,
        len <= slice_count(len, bound) * bound,
        len > 0 ==> (slice_count(len, bound) - 1) * bound < len,
        len <= bound ==> slice_count(len, bound) == 1,
{
    let b = bound as int;
    let c = (len + b - 1) / b;
    assert(c * b <= len + b - 1 < c * b + b) by (nonlinear_arith)
        requires
            b > 0,
            c == (len + b - 1) / b,
    ;
    assert((c - 1) * b == c * b - b) by (nonlinear_arith);
    if c < 1 {
        assert(c >= 0) by (nonlinear_arith)
            requires
                b > 0,
                len + b - 1 >= 0,
                c == (len + b - 1) / b,
        ;
        assert(0 * b == 0 && 1 * b == b);
    } else if len <= bound {
        assert(c < 2) by (nonlinear_arith)
            requires
                b > 0,
                c * b <= len + b - 1,
                len <= b,
        ;
        assert(0 * b == 0 && 1 * b == b);
    }
}

/// Every slice but the last holds exactly `bound` characters, and the last
/// holds the rest.
pub proof fn lemma_slice_lengths(payload: Seq<char>, bound: nat, index: int)
    requires
        bound > 0,
        0 <= index < slice_count(payload.len(), bound),
    ensures
        index < slice_count(payload.len(), bound) - 1 ==> payload_slice(
            payload,
            bound,
            index,
        ).len() == bound,
        index == slice_count(payload.len(), bound) - 1 ==> payload_slice(
            payload,
            bound,
            index,
        ).len() == payload.len() - index * bound,
        payload_slice(payload, bound, index).len() <= bound,
{
    let count = slice_count(payload.len(), bound) as int;
    let b = bound as int;
    lemma_slice_count_bounds(payload.len(), bound);
    assert(index * b >= 0) by (nonlinear_arith)
        requires
            index >= 0,
            b > 0,
    ;
    if index < count - 1 {
        assert(index * b + b <= (count - 1) * b) by (nonlinear_arith)
            requires
                index + 1 <= count - 1,
                b > 0,
        ;
    } else {
        assert(count * b == (count - 1) * b + b) by (nonlinear_arith);
    }
}

/// The first `n` slices, joined, are the first `n * bound` characters of the
/// payload, or all of it.
proof fn lemma_joined_prefix(payload: Seq<char>, bound: nat, n: int)
    requires
        bound > 0,
        0 <= n <= slice_count(payload.len(), bound),
    ensures
        joined(split_spec(payload, bound).take(n)) == payload.take(
            if n * bound <= payload.len() {
                n * bound
            } else {
                payload.len() as int
            },
        ),
    decreases n,
{
    let slices = split_spec(payload, bound);
    let b = bound as int;
    if n == 0 {
        assert(0 * b == 0);
        assert(joined(slices.take(0)) =~= payload.take(0));
    } else {
        lemma_joined_prefix(payload, bound, n - 1);
        lemma_slice_count_bounds(payload.len(), bound);
        lemma_slice_lengths(payload, bound, n - 1);
        assert((n - 1) * b + b == n * b) by (nonlinear_arith);
        assert((n - 1) * b <= (slice_count(payload.len(), bound) - 1) * b) by (nonlinear_arith)
            requires
                n <= slice_count(payload.len(), bound),
                b > 0,
        ;
        assert(slices.take(n).drop_last() =~= slices.take(n - 1));
        assert(slices.take(n).last() == payload_slice(payload, bound, n - 1));
        let end = if n * b <= payload.len() {
            n * b
        } else {
            payload.len() as int
        };
        assert(payload.take((n - 1) * b) + payload_slice(payload, bound, n - 1) =~= payload.take(
            end,
        ));
    }
}

/// Joining the slices of a payload gives the payload back.
pub proof fn lemma_split_then_join(payload: Seq<char>, bound: nat)
    requires
        bound > 0,
    ensures
        joined(split_spec(payload, bound)) == payload,
{
    let slices = split_spec(payload, bound);
    let count = slice_count(payload.len(), bound) as int;
    lemma_joined_prefix(payload, bound, count);
    lemma_slice_count_bounds(payload.len(), bound);
    assert(slices.take(count) =~= slices);
    assert(payload.take(payload.len() as int) =~= payload);
}

/// Cuts `payload` into slices of at most `bound` characters.
pub fn split_payload(payload: &str, bound: usize) -> (slices: Vec<String>)
    requires
        bound > 0,
    ensures
        slices.deep_view() == split_spec(payload@, bound as nat),
{
    let len: usize = payload.unicode_len();
    let mut slices: Vec<String> = Vec::new();
    let mut start: usize = 0;
    proof {
        lemma_slice_count_bounds(len as nat, bound as nat);
    }
    loop
        invariant_except_break
            bound > 0,
            len == payload@.len(),
            slices.len() < slice_count(len as nat, bound as nat),
            start == slices.len() * bound,
            start <= len,
            forall|i: int|
                0 <= i < slices.len() ==> (#[trigger] slices[i])@ == payload_slice(
                    payload@,
                    bound as nat,
                    i,
                ),
        ensures
            slices.len() == slice_count(len as nat, bound as nat),
            len == payload@.len(),
            forall|i: int|
                0 <= i < slices.len() ==> (#[trigger] slices[i])@ == payload_slice(
                    payload@,
                    bound as nat,
                    i,
                ),
        decreases len - start,
    {
        let ghost index = slices.len() as int;
        let ghost count = slice_count(len as nat, bound as nat) as int;
        proof {
            lemma_slice_count_bounds(len as nat, bound as nat);
            lemma_slice_lengths(payload@, bound as nat, index);
        }
        if len - start > bound {
            let end: usize = start + bound;
            slices.push(String::from_str(payload.substring_char(start, end)));
            proof {
                assert(index < count - 1) by {
                    if index >= count - 1 {
                        assert(index == count - 1);
                        assert(count * bound == (count - 1) * bound + bound) by (nonlinear_arith);
                    }
                }
                assert((index + 1) * bound == index * bound + bound) by (nonlinear_arith);
            }
            start = end;
        } else {
            slices.push(String::from_str(payload.substring_char(start, len)));
            proof {
                assert(index == count - 1) by {
                    if index < count - 1 {
                        assert((index + 1) * bound <= (count - 1) * bound) by (nonlinear_arith)
                            requires
                                index + 1 <= count - 1,
                                bound > 0,
                        ;
                        assert((index + 1) * bound == index * bound + bound) by (nonlinear_arith);
                        if len > 0 {
                        } else {
                            assert(count == 1);
                        }
                    }
                }
            }
            break ;
        }
    }
    assert(slices.deep_view() =~= split_spec(payload@, bound as nat));
    slices
}

} // verus!
