//! The checkpoint file format: one JSON object `{"ids":[...],"cursor":N}`
//! per logical dataset. The library frames and checks the bytes itself, so
//! that writing a collection and reading it back provably round-trips; the
//! caller only moves the bytes to and from durable storage.

use vstd::prelude::*;

use crate::fetcher::IdCollection;

verus! {

/// The decimal digits of `n`, most significant first.
pub open spec fn dig_seq(n: nat) -> Seq<u8>
    decreases n,
{
    if n < 10 {
        seq![(n + 48) as u8]
    } else {
        dig_seq(n / 10).push((n % 10 + 48) as u8)
    }
}

/// The canonical byte encoding of one signed integer: a minus sign for
/// negative values, then the decimal digits of the magnitude.
pub open spec fn enc_i64(x: int) -> Seq<u8> {
    if x < 0 {
        seq![45u8] + dig_seq((-x) as nat)
    } else {
        dig_seq(x as nat)
    }
}

/// The canonical encoding of an id list: the encoded ids joined by commas.
pub open spec fn enc_ids(ids: Seq<i64>) -> Seq<u8>
    decreases ids.len(),
{
    if ids.len() == 0 {
        Seq::<u8>::empty()
    } else if ids.len() == 1 {
        enc_i64(ids[0] as int)
    } else {
        enc_i64(ids[0] as int) + seq![44u8] + enc_ids(ids.drop_first())
    }
}

/// The bytes `{"ids":[`.
pub open spec fn obj_prefix() -> Seq<u8> {
    seq![123u8, 34u8, 105u8, 100u8, 115u8, 34u8, 58u8, 91u8]
}

/// The bytes `],"cursor":`.
pub open spec fn obj_mid() -> Seq<u8> {
    seq![93u8, 44u8, 34u8, 99u8, 117u8, 114u8, 115u8, 111u8, 114u8, 34u8, 58u8]
}

/// The canonical checkpoint encoding of a collection.
pub open spec fn enc_checkpoint(ids: Seq<i64>, cursor: int) -> Seq<u8> {
    obj_prefix() + enc_ids(ids) + obj_mid() + enc_i64(cursor) + seq![125u8]
}

/// A byte is an ASCII decimal digit.
pub open spec fn is_digit(b: u8) -> bool {
    48 <= b <= 57
}

/// Every byte of a digit run is a digit, the run is never empty, and it
/// starts with `0` only for the value zero itself.
pub proof fn lemma_dig_seq_shape(n: nat)
    ensures
        dig_seq(n).len() >= 1,
        forall|i: int| 0 <= i < dig_seq(n).len() ==> is_digit(#[trigger] dig_seq(n)[i]),
        dig_seq(n)[0] == 48 ==> n == 0,
        n == 0 ==> dig_seq(n) == seq![48u8],
    decreases n,
{
    if n >= 10 {
        lemma_dig_seq_shape(n / 10);
        assert forall|i: int| 0 <= i < dig_seq(n).len() implies is_digit(
            #[trigger] dig_seq(n)[i],
        ) by {
            if i < dig_seq(n / 10).len() {
                assert(dig_seq(n)[i] == dig_seq(n / 10)[i]);
            }
        }
        assert(dig_seq(n)[0] == dig_seq(n / 10)[0]);
        assert(n / 10 > 0);
    }
}

/// The numeric value of a digit run.
pub open spec fn dig_val(s: Seq<u8>) -> int
    decreases s.len(),
{
    if s.len() == 0 {
        0
    } else {
        dig_val(s.drop_last()) * 10 + (s.last() - 48)
    }
}

/// Reading back the digits of `n` yields `n`: the digit run is its own
/// inverse under `dig_val`.
pub proof fn lemma_dig_val_of_dig_seq(n: nat)
    ensures
        dig_val(dig_seq(n)) == n,
    decreases n,
{
    if n < 10 {
        assert(dig_seq(n).drop_last() =~= Seq::<u8>::empty());
        assert(dig_val(Seq::<u8>::empty()) == 0);
        assert(dig_seq(n).last() == (n + 48) as u8);
    } else {
        lemma_dig_val_of_dig_seq(n / 10);
        assert(dig_seq(n).drop_last() =~= dig_seq(n / 10));
        assert(dig_seq(n).last() == (n % 10 + 48) as u8);
        assert(dig_val(dig_seq(n)) == dig_val(dig_seq(n / 10)) * 10 + (n % 10 + 48) - 48);
        assert(n / 10 * 10 + n % 10 == n);
    }
}

/// Appending one id to an encoded list appends a comma (when the list was
/// not empty) and the id's own encoding.
pub proof fn lemma_enc_ids_push(s: Seq<i64>, x: i64)
    ensures
        enc_ids(s.push(x)) == if s.len() == 0 {
            enc_i64(x as int)
        } else {
            enc_ids(s) + seq![44u8] + enc_i64(x as int)
        },
    decreases s.len(),
{
    if s.len() == 0 {
        assert(s.push(x) =~= seq![x]);
    } else {
        lemma_enc_ids_push(s.drop_first(), x);
        assert(s.push(x).drop_first() =~= s.drop_first().push(x));
        assert(s.push(x)[0] == s[0]);
        if s.len() == 1 {
            assert(s.drop_first().len() == 0);
            assert(enc_ids(s.push(x)) == enc_i64(s[0] as int) + seq![44u8] + enc_i64(x as int));
            assert(enc_ids(s) == enc_i64(s[0] as int));
        } else {
            assert(enc_ids(s.push(x)) == enc_i64(s[0] as int) + seq![44u8] + enc_ids(
                s.drop_first().push(x),
            ));
            assert(enc_ids(s.drop_first().push(x)) == enc_ids(s.drop_first()) + seq![44u8]
                + enc_i64(x as int));
            assert(enc_i64(s[0] as int) + seq![44u8] + (enc_ids(s.drop_first()) + seq![44u8]
                + enc_i64(x as int)) =~= (enc_i64(s[0] as int) + seq![44u8] + enc_ids(
                s.drop_first(),
            )) + seq![44u8] + enc_i64(x as int));
        }
    }
}

/// Every byte of `s` is an ASCII decimal digit.
pub open spec fn all_digits(s: Seq<u8>) -> bool {
    forall|i: int| 0 <= i < s.len() ==> is_digit(#[trigger] s[i])
}

/// The value of a digit run is never negative.
pub proof fn lemma_dig_val_nonneg(s: Seq<u8>)
    requires
        all_digits(s),
    ensures
        dig_val(s) >= 0,
    decreases s.len(),
{
    if s.len() > 0 {
        assert(all_digits(s.drop_last()));
        lemma_dig_val_nonneg(s.drop_last());
        assert(is_digit(s.last()));
    }
}

/// A digit run is worth at least as much as any of its prefixes.
pub proof fn lemma_dig_val_take_le(s: Seq<u8>, j: int)
    requires
        all_digits(s),
        0 <= j <= s.len(),
    ensures
        dig_val(s.take(j)) <= dig_val(s),
    decreases s.len() - j,
{
    if j == s.len() {
        assert(s.take(j) =~= s);
    } else {
        lemma_dig_val_take_le(s, j + 1);
        assert(s.take(j + 1).drop_last() =~= s.take(j));
        assert(s.take(j + 1).last() == s[j]);
        assert(all_digits(s.take(j)));
        lemma_dig_val_nonneg(s.take(j));
        assert(dig_val(s.take(j + 1)) == dig_val(s.take(j)) * 10 + (s[j] - 48));
        assert(is_digit(s[j]));
    }
}

/// A nonempty digit run without a leading zero (unless it is the single
/// digit zero) is exactly the digit run of its own value.
pub proof fn lemma_dig_seq_of_val(s: Seq<u8>)
    requires
        s.len() >= 1,
        all_digits(s),
        s[0] != 48 || s.len() == 1,
    ensures
        dig_val(s) >= 0,
        dig_seq(dig_val(s) as nat) == s,
    decreases s.len(),
{
    lemma_dig_val_nonneg(s);
    if s.len() == 1 {
        assert(is_digit(s[0]));
        assert(s.drop_last() =~= Seq::<u8>::empty());
        assert(dig_val(Seq::<u8>::empty()) == 0);
        assert(s.last() == s[0]);
        assert(dig_val(s) == s[0] - 48);
        assert(dig_seq(dig_val(s) as nat) =~= s);
    } else {
        let pre = s.drop_last();
        assert(all_digits(pre));
        assert(pre[0] == s[0]);
        lemma_dig_seq_of_val(pre);
        let m = dig_val(pre) as nat;
        lemma_dig_seq_shape(m);
        if m == 0 {
            assert(pre[0] == 48);
            assert(false);
        }
        assert(is_digit(s.last()));
        let d = s.last() - 48;
        assert(dig_val(s) == m * 10 + d);
        assert(dig_val(s) as nat / 10 == m) by (nonlinear_arith)
            requires
                dig_val(s) == m * 10 + d,
                0 <= d < 10,
                m >= 1,
        ;
        assert(dig_val(s) as nat % 10 == d) by (nonlinear_arith)
            requires
                dig_val(s) == m * 10 + d,
                0 <= d < 10,
                m >= 1,
        ;
        assert(dig_val(s) >= 10) by (nonlinear_arith)
            requires
                dig_val(s) == m * 10 + d,
                0 <= d,
                m >= 1,
        ;
        assert(dig_seq(dig_val(s) as nat) == dig_seq(m).push((dig_val(s) as nat % 10 + 48) as u8));
        assert(dig_seq(dig_val(s) as nat) =~= s);
    }
}

/// The canonical digit run of `m` sits at `dstart` in `s` and the byte
/// after it, if any, is not a digit.
pub open spec fn canonical_digits_at(s: Seq<u8>, dstart: int, m: nat) -> bool {
    let d = dig_seq(m);
    &&& 0 <= dstart
    &&& dstart + d.len() <= s.len()
    &&& s.subrange(dstart, dstart + d.len()) == d
    &&& (dstart + d.len() == s.len() || !is_digit(s[dstart + d.len()]))
}

/// The canonical encoding of `v` sits at `pos` in `s`, delimited on the
/// right by the end of input or a byte that is not a digit.
pub open spec fn canonical_int_at(s: Seq<u8>, pos: int, v: i64) -> bool {
    if v < 0 {
        &&& 0 <= pos
        &&& pos < s.len()
        &&& s[pos] == 45
        &&& canonical_digits_at(s, pos + 1, (-v) as nat)
    } else {
        canonical_digits_at(s, pos, v as nat)
    }
}

/// Appends the decimal digits of `n` to `buf`.
fn push_u64_digits(buf: &mut Vec<u8>, n: u64)
    ensures
        final(buf)@ == old(buf)@ + dig_seq(n as nat),
    decreases n,
{
    if n >= 10 {
        push_u64_digits(buf, n / 10);
    }
    buf.push((n % 10) as u8 + 48);
    proof {
        let d: u8 = ((n % 10) + 48) as u8;
        if n < 10 {
            assert(old(buf)@.push(d) =~= old(buf)@ + dig_seq(n as nat));
        } else {
            assert((old(buf)@ + dig_seq(n as nat / 10)).push(d) =~= old(buf)@ + dig_seq(n as nat));
        }
    }
}

/// Appends the canonical encoding of one signed integer to `buf`.
fn push_i64(buf: &mut Vec<u8>, x: i64)
    ensures
        final(buf)@ == old(buf)@ + enc_i64(x as int),
{
    if x < 0 {
        buf.push(45);
        let m: u64 = (-(x as i128)) as u64;
        assert(m == -(x as int));
        push_u64_digits(buf, m);
        proof {
            assert(old(buf)@.push(45u8) + dig_seq(m as nat) =~= old(buf)@ + (seq![45u8] + dig_seq(
                (-(x as int)) as nat,
            )));
        }
    } else {
        push_u64_digits(buf, x as u64);
    }
}

/// Parses the canonical encoding of one signed integer starting at `pos`:
/// an optional minus sign and a digit run without leading zero, within the
/// value range, delimited by the end of input or a non-digit byte. Accepts
/// exactly the canonical runs and returns the value with the index just
/// past it.
fn parse_i64(s: &Vec<u8>, pos: usize) -> (r: Option<(i64, usize)>)
    requires
        pos <= s@.len(),
    ensures
        r matches Some(p) ==> {
            &&& pos < p.1 <= s@.len()
            &&& s@.subrange(pos as int, p.1 as int) == enc_i64(p.0 as int)
            &&& (p.1 == s@.len() || !is_digit(s@[p.1 as int]))
            &&& canonical_int_at(s@, pos as int, p.0)
        },
        forall|v: i64|
            canonical_int_at(s@, pos as int, v) ==> r == Some::<(i64, usize)>(
                (v, (pos + enc_i64(v as int).len()) as usize),
            ),
{
    let n = s.len();
    let mut i = pos;
    let mut neg = false;
    if i < n && s[i] == 45 {
        neg = true;
        i = i + 1;
    }
    if i >= n || !(48 <= s[i] && s[i] <= 57) {
        proof {
            assert forall|v: i64| !canonical_int_at(s@, pos as int, v) by {
                if canonical_int_at(s@, pos as int, v) {
                    if v < 0 {
                        lemma_dig_seq_shape((-v) as nat);
                        assert(s@[pos + 1] == dig_seq((-v) as nat)[0]);
                    } else {
                        lemma_dig_seq_shape(v as nat);
                        assert(s@[pos as int] == dig_seq(v as nat)[0]);
                    }
                }
            }
        }
        return None;
    }
    if s[i] == 48 {
        if neg {
            proof {
                assert forall|v: i64| !canonical_int_at(s@, pos as int, v) by {
                    if canonical_int_at(s@, pos as int, v) {
                        if v < 0 {
                            lemma_dig_seq_shape((-v) as nat);
                            assert(s@[pos + 1] == dig_seq((-v) as nat)[0]);
                        } else {
                            lemma_dig_seq_shape(v as nat);
                            assert(s@[pos as int] == dig_seq(v as nat)[0]);
                            assert(is_digit(45u8));
                        }
                    }
                }
            }
            return None;
        }
        if i + 1 < n && 48 <= s[i + 1] && s[i + 1] <= 57 {
            proof {
                assert forall|v: i64| !canonical_int_at(s@, pos as int, v) by {
                    if canonical_int_at(s@, pos as int, v) {
                        if v < 0 {
                            assert(s@[pos as int] == 45);
                        } else {
                            lemma_dig_seq_shape(v as nat);
                            assert(s@[pos as int] == dig_seq(v as nat)[0]);
                            assert(v == 0);
                            assert(dig_seq(0).len() == 1);
                            assert(!is_digit(s@[pos + 1]));
                        }
                    }
                }
            }
            return None;
        }
        proof {
            assert(dig_seq(0) =~= seq![48u8]);
            assert(s@.subrange(pos as int, pos + 1) =~= seq![48u8]);
            assert(enc_i64(0) == dig_seq(0));
            assert(canonical_digits_at(s@, pos as int, 0));
            assert forall|v: i64|
                canonical_int_at(s@, pos as int, v) implies Some::<(i64, usize)>((0i64, (pos
                + 1) as usize)) == Some::<(i64, usize)>(
                (v, (pos + enc_i64(v as int).len()) as usize),
            ) by {
                if v < 0 {
                    assert(s@[pos as int] == 45);
                    assert(false);
                } else {
                    lemma_dig_seq_shape(v as nat);
                    assert(s@[pos as int] == dig_seq(v as nat)[0]);
                    assert(v == 0);
                }
            }
        }
        return Some((0, i + 1));
    }
    let dstart = i;
    let ghost sign_len: int = if neg { 1int } else { 0int };
    let mut acc: u64 = 0;
    let limit: u64 = if neg {
        9223372036854775808
    } else {
        9223372036854775807
    };
    loop
        invariant
            pos + sign_len == dstart,
            neg ==> pos < s@.len() && s@[pos as int] == 45,
            dstart < s@.len(),
            is_digit(s@[dstart as int]),
            s@[dstart as int] != 48,
            dstart <= i <= s@.len(),
            n == s@.len(),
            all_digits(s@.subrange(dstart as int, i as int)),
            acc == dig_val(s@.subrange(dstart as int, i as int)),
            acc <= limit,
            limit == if neg { 9223372036854775808u64 } else { 9223372036854775807u64 },
        ensures
            pos + sign_len == dstart,
            neg ==> pos < s@.len() && s@[pos as int] == 45,
            dstart <= i <= s@.len(),
            n == s@.len(),
            all_digits(s@.subrange(dstart as int, i as int)),
            acc == dig_val(s@.subrange(dstart as int, i as int)),
            acc <= limit,
            i == s@.len() || !is_digit(s@[i as int]) || ({
                // left early: the next digit would overflow the value range
                &&& i < s@.len()
                &&& is_digit(s@[i as int])
                &&& dig_val(s@.subrange(dstart as int, i + 1)) > limit
            }),
            i == s@.len() || !is_digit(s@[i as int]) ==> true,
        decreases s@.len() - i,
    {
        if !(i < n && 48 <= s[i] && s[i] <= 57) {
            break;
        }
        let d = s[i] - 48;
        let ghost run = s@.subrange(dstart as int, i as int);
        let ghost run1 = s@.subrange(dstart as int, i + 1);
        proof {
            assert(run1.drop_last() =~= run);
            assert(run1.last() == s@[i as int]);
            assert(dig_val(run1) == acc * 10 + d);
            assert(all_digits(run1));
        }
        if acc > limit / 10 || (acc == limit / 10 && (d as u64) > limit % 10) {
            proof {
                lemma_dig_val_nonneg(run);
                assert(dig_val(run1) > limit) by (nonlinear_arith)
                    requires
                        dig_val(run1) == acc * 10 + d,
                        acc > limit / 10 || (acc == limit / 10 && d > limit % 10),
                        acc >= 0,
                        d >= 0,
                        limit == limit / 10 * 10 + limit % 10,
                        0 <= limit % 10 < 10,
                ;
            }
            break;
        }
        proof {
            assert(acc * 10 + d <= limit) by (nonlinear_arith)
                requires
                    acc <= limit / 10,
                    acc < limit / 10 || d <= limit % 10,
                    d < 10,
                    acc >= 0,
                    d >= 0,
                    limit == limit / 10 * 10 + limit % 10,
                    0 <= limit % 10 < 10,
            ;
        }
        acc = acc * 10 + (d as u64);
        i = i + 1;
    }
    let ghost run = s@.subrange(dstart as int, i as int);
    // Did the loop stop at an overflowing digit rather than a delimiter?
    if i < n && 48 <= s[i] && s[i] <= 57 {
        proof {
            assert forall|v: i64| !canonical_int_at(s@, pos as int, v) by {
                if canonical_int_at(s@, pos as int, v) {
                    lemma_canonical_run_agrees(s@, pos as int, v, neg, dstart as int, i as int);
                    let m: nat = if v < 0 {
                        (-v) as nat
                    } else {
                        v as nat
                    };
                    let dl = dig_seq(m).len() as int;
                    // the run never leaves the digit part of the encoding
                    assert(i + 1 <= dstart + dl);
                    lemma_dig_seq_shape(m);
                    lemma_dig_val_of_dig_seq(m);
                    lemma_dig_val_take_le(dig_seq(m), i + 1 - dstart);
                    assert(s@.subrange(dstart as int, i + 1) =~= dig_seq(m).take(
                        i + 1 - dstart,
                    ));
                    assert(dig_val(s@.subrange(dstart as int, i + 1)) <= m);
                    assert(m <= limit);
                }
            }
        }
        return None;
    }
    // The run is canonical, so it is the digit sequence of its own value.
    proof {
        assert(i > dstart);
        assert(run[0] == s@[dstart as int]);
        lemma_dig_seq_of_val(run);
        assert(dig_seq(acc as nat) == run);
    }
    let value: i64 = if neg {
        if acc == 9223372036854775808 {
            i64::MIN
        } else {
            -(acc as i64)
        }
    } else {
        acc as i64
    };
    proof {
        assert(value < 0 <==> neg) by {
            if neg {
                assert(acc >= 1);
            }
        }
        if neg {
            assert((-value) as nat == acc as nat);
            assert(enc_i64(value as int) == seq![45u8] + dig_seq(acc as nat));
            assert(s@.subrange(pos as int, i as int) =~= seq![45u8] + run);
        } else {
            assert(enc_i64(value as int) == dig_seq(acc as nat));
        }
        assert(s@.subrange(pos as int, i as int) == enc_i64(value as int));
        assert(canonical_int_at(s@, pos as int, value));
        assert forall|v: i64|
            canonical_int_at(s@, pos as int, v) implies Some::<(i64, usize)>((value, i))
            == Some::<(i64, usize)>((v, (pos + enc_i64(v as int).len()) as usize)) by {
            lemma_canonical_run_agrees(s@, pos as int, v, neg, dstart as int, i as int);
            let m: nat = if v < 0 {
                (-v) as nat
            } else {
                v as nat
            };
            let dl = dig_seq(m).len() as int;
            // the parser's run and the encoding's digit part coincide
            assert(i == dstart + dl);
            assert(s@.subrange(dstart as int, i as int) =~= dig_seq(m));
            lemma_dig_val_of_dig_seq(m);
            assert(acc == m);
            if v < 0 {
                assert(value == v);
            } else {
                assert(value == v);
            }
        }
    }
    Some((value, i))
}

/// Relates the parser's digit run to the digit part of a canonical
/// encoding found at the same position: the sign matches, the run stays
/// within the encoded digits, and if the run ended at a delimiter it covers
/// them exactly.
proof fn lemma_canonical_run_agrees(
    s: Seq<u8>,
    pos: int,
    v: i64,
    neg: bool,
    dstart: int,
    i: int,
)
    requires
        canonical_int_at(s, pos, v),
        pos + (if neg { 1int } else { 0int }) == dstart,
        neg ==> pos < s.len() && s[pos] == 45,
        !neg ==> dstart < s.len() && is_digit(s[dstart]),
        dstart <= i <= s.len(),
        all_digits(s.subrange(dstart, i)),
    ensures
        (v < 0) == neg,
        ({
            let m: nat = if v < 0 { (-v) as nat } else { v as nat };
            let dl = dig_seq(m).len() as int;
            &&& dstart + dl <= s.len()
            &&& s.subrange(dstart, dstart + dl) == dig_seq(m)
            &&& (dstart + dl == s.len() || !is_digit(s[dstart + dl]))
            &&& (i <= dstart + dl)
            &&& ((i == s.len() || !is_digit(s[i])) ==> i == dstart + dl)
        }),
{
    if v < 0 {
        lemma_dig_seq_shape((-v) as nat);
        if !neg {
            assert(s[pos] == 45);
            assert(is_digit(s[dstart]));
            assert(false);
        }
    } else {
        lemma_dig_seq_shape(v as nat);
        if neg {
            assert(s[pos] == 45);
            assert(s[pos] == dig_seq(v as nat)[0]);
            assert(is_digit(dig_seq(v as nat)[0]));
            assert(false);
        }
    }
    let m: nat = if v < 0 {
        (-v) as nat
    } else {
        v as nat
    };
    let dl = dig_seq(m).len() as int;
    lemma_dig_seq_shape(m);
    assert(s.subrange(dstart, dstart + dl) == dig_seq(m));
    // the run cannot pass the delimiter that ends the encoded digits
    if i > dstart + dl {
        if dstart + dl == s.len() {
            assert(false);
        } else {
            assert(s.subrange(dstart, i)[dl] == s[dstart + dl]);
            assert(is_digit(s[dstart + dl]));
            assert(false);
        }
    }
    // a run ending at a delimiter cannot stop inside the encoded digits
    if (i == s.len() || !is_digit(s[i])) && i < dstart + dl {
        assert(i < s.len());
        assert(s[i] == dig_seq(m)[i - dstart]);
        assert(is_digit(dig_seq(m)[i - dstart]));
        assert(false);
    }
}

/// The bytes that follow the id list: `],"cursor":` then the cursor and the
/// closing brace.
pub open spec fn enc_tail(cursor: int) -> Seq<u8> {
    obj_mid() + enc_i64(cursor) + seq![125u8]
}

/// Unfolds the list encoding at its `k`-th element.
proof fn lemma_enc_ids_skip(ids: Seq<i64>, k: int)
    requires
        0 <= k < ids.len(),
    ensures
        enc_ids(ids.skip(k)) == enc_i64(ids[k] as int) + (if k + 1 < ids.len() {
            seq![44u8] + enc_ids(ids.skip(k + 1))
        } else {
            Seq::<u8>::empty()
        }),
{
    assert(ids.skip(k)[0] == ids[k]);
    assert(ids.skip(k).drop_first() =~= ids.skip(k + 1));
    if k + 1 == ids.len() {
        assert(ids.skip(k).len() == 1);
        assert(enc_i64(ids[k] as int) + Seq::<u8>::empty() =~= enc_i64(ids[k] as int));
    }
}

/// A canonical integer encoding followed by a non-digit delimiter sits
/// canonically at `pos`.
proof fn lemma_canonical_from_suffix(s: Seq<u8>, pos: int, v: i64, rest: Seq<u8>)
    requires
        0 <= pos <= s.len(),
        s.skip(pos) == enc_i64(v as int) + rest,
        rest.len() > 0,
        !is_digit(rest[0]),
    ensures
        canonical_int_at(s, pos, v),
        pos + enc_i64(v as int).len() < s.len(),
        s[pos + enc_i64(v as int).len()] == rest[0],
        s.skip(pos + enc_i64(v as int).len()) == rest,
{
    let e = enc_i64(v as int);
    assert(s.skip(pos).len() == s.len() - pos);
    assert(s.skip(pos).skip(e.len() as int) =~= s.skip(pos + e.len() as int));
    assert((e + rest).skip(e.len() as int) =~= rest);
    assert(s.skip(pos + e.len() as int) == rest);
    assert(s[pos + e.len()] == s.skip(pos + e.len() as int)[0]);
    if v < 0 {
        let m = (-v) as nat;
        let d = dig_seq(m);
        lemma_dig_seq_shape(m);
        assert(s[pos] == s.skip(pos)[0]);
        assert((e + rest)[0] == e[0]);
        assert(e[0] == 45);
        assert(s[pos] == 45);
        assert(s.skip(pos).subrange(1, 1 + d.len() as int) =~= s.subrange(
            pos + 1,
            pos + 1 + d.len() as int,
        ));
        assert((e + rest).subrange(1, 1 + d.len() as int) =~= d);
        assert(s.subrange(pos + 1, pos + 1 + d.len() as int) == d);
        assert(canonical_digits_at(s, pos + 1, m));
    } else {
        let m = v as nat;
        let d = dig_seq(m);
        assert(s.skip(pos).subrange(0, d.len() as int) =~= s.subrange(
            pos,
            pos + d.len() as int,
        ));
        assert((e + rest).subrange(0, d.len() as int) =~= d);
        assert(s.subrange(pos, pos + d.len() as int) == d);
        assert(canonical_digits_at(s, pos, m));
    }
}

/// What a parse result must be for canonical bytes: the very collection
/// they encode.
pub open spec fn is_parse_of(r: Option<IdCollection>, ids: Seq<i64>, cursor: i64) -> bool {
    match r {
        Some(c) => c.ids@ == ids && c.cursor == cursor,
        None => false,
    }
}

/// Reads a collection back from checkpoint bytes. Accepts exactly the
/// canonical checkpoint encodings: the result is `Some` with the encoded
/// collection when the bytes are one, and `None` on any other input.
#[verifier::rlimit(100)]
#[verifier::spinoff_prover]
pub fn parse_checkpoint(s: &Vec<u8>) -> (r: Option<IdCollection>)
    ensures
        r matches Some(c) ==> s@ == enc_checkpoint(c.ids@, c.cursor as int),
        forall|ids: Seq<i64>, cursor: i64|
            s@ == enc_checkpoint(ids, cursor as int) ==> is_parse_of(r, ids, cursor),
{
    let n = s.len();
    if n < 9 {
        proof {
            assert forall|ids: Seq<i64>, cursor: i64|
                s@ != enc_checkpoint(ids, cursor as int) by {
                if s@ == enc_checkpoint(ids, cursor as int) {
                    if (cursor as int) < 0 {
                        lemma_dig_seq_shape((-(cursor as int)) as nat);
                    } else {
                        lemma_dig_seq_shape((cursor as int) as nat);
                    }
                    assert(enc_i64(cursor as int).len() >= 1);
                    assert(s@.len() >= 21);
                }
            }
        }
        return None;
    }
    if !(s[0] == 123 && s[1] == 34 && s[2] == 105 && s[3] == 100 && s[4] == 115 && s[5] == 34
        && s[6] == 58 && s[7] == 91) {
        proof {
            assert forall|ids: Seq<i64>, cursor: i64|
                s@ != enc_checkpoint(ids, cursor as int) by {
                if s@ == enc_checkpoint(ids, cursor as int) {
                    assert forall|t: int| 0 <= t < 8 implies s@[t] == obj_prefix()[t] by {}
                    assert(s@[0] == 123 && s@[1] == 34 && s@[2] == 105 && s@[3] == 100 && s@[4]
                        == 115 && s@[5] == 34 && s@[6] == 58 && s@[7] == 91);
                }
            }
        }
        return None;
    }
    assert(s@.take(8) =~= obj_prefix());

    let mut w: Vec<i64> = Vec::new();
    let mut pos: usize;
    if s[8] == 93 {
        pos = 9;
        proof {
            assert(s@.take(9) =~= obj_prefix().push(93u8));
            assert(obj_prefix() + enc_ids(w@) + seq![93u8] =~= obj_prefix().push(93u8));
            assert forall|ids0: Seq<i64>, cur0: i64|
                s@ == enc_checkpoint(ids0, cur0 as int) implies w@ == ids0 && s@.skip(9)
                == obj_mid().drop_first() + enc_i64(cur0 as int) + seq![125u8] by {
                if ids0.len() > 0 {
                    lemma_enc_ids_skip(ids0, 0);
                    assert(ids0.skip(0) =~= ids0);
                    if (ids0[0] as int) < 0 {
                        lemma_dig_seq_shape((-(ids0[0] as int)) as nat);
                        assert(s@[8] == 45);
                    } else {
                        lemma_dig_seq_shape((ids0[0] as int) as nat);
                        assert(s@[8] == dig_seq((ids0[0] as int) as nat)[0]);
                        assert(is_digit(s@[8]));
                    }
                    assert(false);
                }
                assert(enc_ids(ids0) == Seq::<u8>::empty());
                assert(w@ =~= ids0);
                assert(s@.skip(9) =~= obj_mid().drop_first() + enc_i64(cur0 as int)
                    + seq![125u8]);
            }
        }
    } else {
        pos = 8;
        proof {
            assert(obj_prefix() + enc_ids(w@) + Seq::<u8>::empty() =~= obj_prefix());
            assert forall|ids0: Seq<i64>, cur0: i64|
                s@ == enc_checkpoint(ids0, cur0 as int) implies w@.len() < ids0.len() && w@
                == ids0.take(w@.len() as int) && s@.skip(8) == enc_ids(
                ids0.skip(w@.len() as int),
            ) + enc_tail(cur0 as int) by {
                if ids0.len() == 0 {
                    assert(enc_ids(ids0) == Seq::<u8>::empty());
                    assert(s@[8] == enc_tail(cur0 as int)[0]);
                    assert(s@[8] == 93);
                    assert(false);
                }
                assert(ids0.take(0) =~= w@);
                assert(ids0.skip(0) =~= ids0);
                assert(s@.skip(8) =~= enc_ids(ids0) + enc_tail(cur0 as int));
            }
        }
        loop
            invariant_except_break
                s@.take(pos as int) == obj_prefix() + enc_ids(w@) + (if w@.len() > 0 {
                    seq![44u8]
                } else {
                    Seq::<u8>::empty()
                }),
                forall|ids0: Seq<i64>, cur0: i64|
                    s@ == enc_checkpoint(ids0, cur0 as int) ==> {
                        &&& w@.len() < ids0.len()
                        &&& w@ == ids0.take(w@.len() as int)
                        &&& s@.skip(pos as int) == enc_ids(ids0.skip(w@.len() as int))
                            + enc_tail(cur0 as int)
                    },
            invariant
                8 <= pos <= n,
                n == s@.len(),
            ensures
                9 <= pos <= n,
                n == s@.len(),
                s@.take(pos as int) == obj_prefix() + enc_ids(w@) + seq![93u8],
                forall|ids0: Seq<i64>, cur0: i64|
                    s@ == enc_checkpoint(ids0, cur0 as int) ==> {
                        &&& w@ == ids0
                        &&& s@.skip(pos as int) == obj_mid().drop_first() + enc_i64(
                            cur0 as int,
                        ) + seq![125u8]
                    },
            decreases n - pos,
        {
            let ghost oldw = w@;
            let ghost k = w@.len() as int;
            let ghost oldpos = pos as int;
            match parse_i64(s, pos) {
                None => {
                    proof {
                        assert forall|ids0: Seq<i64>, cur0: i64|
                            s@ != enc_checkpoint(ids0, cur0 as int) by {
                            if s@ == enc_checkpoint(ids0, cur0 as int) {
                                lemma_enc_ids_skip(ids0, k);
                                let rest: Seq<u8> = if k + 1 < ids0.len() {
                                    seq![44u8] + enc_ids(ids0.skip(k + 1)) + enc_tail(
                                        cur0 as int,
                                    )
                                } else {
                                    enc_tail(cur0 as int)
                                };
                                assert(s@.skip(oldpos) =~= enc_i64(ids0[k] as int) + rest);
                                assert(!is_digit(rest[0]));
                                lemma_canonical_from_suffix(s@, oldpos, ids0[k], rest);
                                assert(false);
                            }
                        }
                    }
                    return None;
                },
                Some((v, end)) => {
                    w.push(v);
                    proof {
                        assert(s@.take(end as int) =~= s@.take(oldpos) + s@.subrange(
                            oldpos,
                            end as int,
                        ));
                        lemma_enc_ids_push(oldw, v);
                        if k == 0 {
                            assert(s@.take(end as int) =~= obj_prefix() + enc_ids(w@));
                        } else {
                            assert(s@.take(end as int) =~= obj_prefix() + enc_ids(w@));
                        }
                    }
                    if end < n && s[end] == 44 {
                        pos = end + 1;
                        proof {
                            assert(s@.take(pos as int) =~= s@.take(end as int).push(
                                s@[end as int],
                            ));
                            assert(s@.take(pos as int) =~= obj_prefix() + enc_ids(w@)
                                + seq![44u8]);
                            assert forall|ids0: Seq<i64>, cur0: i64|
                                s@ == enc_checkpoint(ids0, cur0 as int) implies w@.len()
                                < ids0.len() && w@ == ids0.take(w@.len() as int) && s@.skip(
                                pos as int,
                            ) == enc_ids(ids0.skip(w@.len() as int)) + enc_tail(
                                cur0 as int,
                            ) by {
                                lemma_enc_ids_skip(ids0, k);
                                let rest: Seq<u8> = if k + 1 < ids0.len() {
                                    seq![44u8] + enc_ids(ids0.skip(k + 1)) + enc_tail(
                                        cur0 as int,
                                    )
                                } else {
                                    enc_tail(cur0 as int)
                                };
                                assert(s@.skip(oldpos) =~= enc_i64(ids0[k] as int) + rest);
                                assert(!is_digit(rest[0]));
                                lemma_canonical_from_suffix(s@, oldpos, ids0[k], rest);
                                assert(v == ids0[k]);
                                assert(s@.skip(end as int) == rest);
                                if k + 1 == ids0.len() {
                                    assert(s@[end as int] == rest[0]);
                                    assert(rest[0] == 93);
                                    assert(false);
                                }
                                assert(s@.skip(end as int).skip(1) =~= s@.skip(end + 1));
                                assert(rest.skip(1) =~= enc_ids(ids0.skip(k + 1)) + enc_tail(
                                    cur0 as int,
                                ));
                                assert(s@.skip(pos as int) == enc_ids(ids0.skip(k + 1))
                                    + enc_tail(cur0 as int));
                                assert(w@ =~= ids0.take(k + 1));
                            }
                        }
                    } else if end < n && s[end] == 93 {
                        pos = end + 1;
                        proof {
                            assert(s@.take(pos as int) =~= s@.take(end as int).push(
                                s@[end as int],
                            ));
                            assert(s@.take(pos as int) =~= obj_prefix() + enc_ids(w@)
                                + seq![93u8]);
                            assert forall|ids0: Seq<i64>, cur0: i64|
                                s@ == enc_checkpoint(ids0, cur0 as int) implies w@ == ids0
                                && s@.skip(pos as int) == obj_mid().drop_first() + enc_i64(
                                cur0 as int,
                            ) + seq![125u8] by {
                                lemma_enc_ids_skip(ids0, k);
                                let rest: Seq<u8> = if k + 1 < ids0.len() {
                                    seq![44u8] + enc_ids(ids0.skip(k + 1)) + enc_tail(
                                        cur0 as int,
                                    )
                                } else {
                                    enc_tail(cur0 as int)
                                };
                                assert(s@.skip(oldpos) =~= enc_i64(ids0[k] as int) + rest);
                                assert(!is_digit(rest[0]));
                                lemma_canonical_from_suffix(s@, oldpos, ids0[k], rest);
                                assert(v == ids0[k]);
                                assert(s@.skip(end as int) == rest);
                                if k + 1 < ids0.len() {
                                    assert(s@[end as int] == rest[0]);
                                    assert(rest[0] == 44);
                                    assert(false);
                                }
                                assert(w@ =~= ids0);
                                assert(s@.skip(pos as int) =~= obj_mid().drop_first()
                                    + enc_i64(cur0 as int) + seq![125u8]);
                            }
                        }
                        break;
                    } else {
                        proof {
                            assert forall|ids0: Seq<i64>, cur0: i64|
                                s@ != enc_checkpoint(ids0, cur0 as int) by {
                                if s@ == enc_checkpoint(ids0, cur0 as int) {
                                    lemma_enc_ids_skip(ids0, k);
                                    let rest: Seq<u8> = if k + 1 < ids0.len() {
                                        seq![44u8] + enc_ids(ids0.skip(k + 1)) + enc_tail(
                                            cur0 as int,
                                        )
                                    } else {
                                        enc_tail(cur0 as int)
                                    };
                                    assert(s@.skip(oldpos) =~= enc_i64(ids0[k] as int)
                                        + rest);
                                    assert(!is_digit(rest[0]));
                                    lemma_canonical_from_suffix(s@, oldpos, ids0[k], rest);
                                    assert(s@[end as int] == rest[0]);
                                    assert(rest[0] == 44 || rest[0] == 93);
                                    assert(end < n);
                                    assert(false);
                                }
                            }
                        }
                        return None;
                    }
                },
            }
        }
    }

    // the bytes `,"cursor":` follow the closing bracket
    if n - pos < 10 {
        proof {
            assert forall|ids0: Seq<i64>, cur0: i64|
                s@ != enc_checkpoint(ids0, cur0 as int) by {
                if s@ == enc_checkpoint(ids0, cur0 as int) {
                    if (cur0 as int) < 0 {
                        lemma_dig_seq_shape((-(cur0 as int)) as nat);
                    } else {
                        lemma_dig_seq_shape((cur0 as int) as nat);
                    }
                    assert(s@.skip(pos as int).len() >= 12);
                }
            }
        }
        return None;
    }
    if !(s[pos] == 44 && s[pos + 1] == 34 && s[pos + 2] == 99 && s[pos + 3] == 117 && s[pos + 4]
        == 114 && s[pos + 5] == 115 && s[pos + 6] == 111 && s[pos + 7] == 114 && s[pos + 8] == 34
        && s[pos + 9] == 58) {
        proof {
            assert forall|ids0: Seq<i64>, cur0: i64|
                s@ != enc_checkpoint(ids0, cur0 as int) by {
                if s@ == enc_checkpoint(ids0, cur0 as int) {
                    let tail = obj_mid().drop_first() + enc_i64(cur0 as int) + seq![125u8];
                    assert forall|t: int| 0 <= t < 10 implies s@[pos + t] == tail[t] by {
                        assert(s@[pos + t] == s@.skip(pos as int)[t]);
                    }
                    assert(s@[pos as int] == 44 && s@[pos + 1] == 34 && s@[pos + 2] == 99
                        && s@[pos + 3] == 117 && s@[pos + 4] == 114 && s@[pos + 5] == 115
                        && s@[pos + 6] == 111 && s@[pos + 7] == 114 && s@[pos + 8] == 34
                        && s@[pos + 9] == 58);
                }
            }
        }
        return None;
    }
    let cpos = pos + 10;
    proof {
        assert(s@.take(cpos as int) =~= s@.take(pos as int) + s@.subrange(
            pos as int,
            cpos as int,
        ));
        assert(s@.subrange(pos as int, cpos as int) =~= obj_mid().drop_first());
        assert(s@.take(cpos as int) =~= obj_prefix() + enc_ids(w@) + obj_mid());
        assert forall|ids0: Seq<i64>, cur0: i64|
            s@ == enc_checkpoint(ids0, cur0 as int) implies s@.skip(cpos as int) == enc_i64(
            cur0 as int,
        ) + seq![125u8] by {
            assert(s@.skip(cpos as int) =~= enc_i64(cur0 as int) + seq![125u8]);
        }
    }
    match parse_i64(s, cpos) {
        None => {
            proof {
                assert forall|ids0: Seq<i64>, cur0: i64|
                    s@ != enc_checkpoint(ids0, cur0 as int) by {
                    if s@ == enc_checkpoint(ids0, cur0 as int) {
                        lemma_canonical_from_suffix(s@, cpos as int, cur0, seq![125u8]);
                        assert(false);
                    }
                }
            }
            None
        },
        Some((cv, end2)) => {
            if end2 < n && s[end2] == 125 && end2 + 1 == n {
                proof {
                    assert(s@.take(end2 as int) =~= s@.take(cpos as int) + s@.subrange(
                        cpos as int,
                        end2 as int,
                    ));
                    assert(s@ =~= s@.take(end2 as int).push(s@[end2 as int]));
                    assert(s@ =~= obj_prefix() + enc_ids(w@) + obj_mid() + enc_i64(cv as int)
                        + seq![125u8]);
                    assert forall|ids0: Seq<i64>, cur0: i64|
                        s@ == enc_checkpoint(ids0, cur0 as int) implies w@ == ids0 && cv
                        == cur0 by {
                        lemma_canonical_from_suffix(s@, cpos as int, cur0, seq![125u8]);
                        assert(cv == cur0);
                    }
                }
                Some(IdCollection { ids: w, cursor: cv })
            } else {
                proof {
                    assert forall|ids0: Seq<i64>, cur0: i64|
                        s@ != enc_checkpoint(ids0, cur0 as int) by {
                        if s@ == enc_checkpoint(ids0, cur0 as int) {
                            lemma_canonical_from_suffix(s@, cpos as int, cur0, seq![125u8]);
                            assert(cv == cur0 && end2 == cpos + enc_i64(cur0 as int).len());
                            assert(s@[end2 as int] == 125);
                            assert(end2 + 1 == n);
                            assert(false);
                        }
                    }
                }
                None
            }
        },
    }
}

/// Serializes a collection into the canonical checkpoint bytes.
pub fn encode_checkpoint(coll: &IdCollection) -> (r: Vec<u8>)
    ensures
        r@ == enc_checkpoint(coll.ids@, coll.cursor as int),
{
    let ids = &coll.ids;
    let mut r: Vec<u8> = Vec::new();
    r.push(123);
    r.push(34);
    r.push(105);
    r.push(100);
    r.push(115);
    r.push(34);
    r.push(58);
    r.push(91);
    assert(r@ =~= obj_prefix());
    let mut i: usize = 0;
    while i < ids.len()
        invariant
            i <= ids@.len(),
            r@ == obj_prefix() + enc_ids(ids@.take(i as int)),
        decreases ids@.len() - i,
    {
        let ghost prev = r@;
        let ghost done = ids@.take(i as int);
        if i > 0 {
            r.push(44);
        }
        push_i64(&mut r, ids[i]);
        proof {
            lemma_enc_ids_push(done, ids@[i as int]);
            assert(ids@.take(i + 1int) =~= done.push(ids@[i as int]));
            if i == 0 {
                assert(r@ =~= obj_prefix() + enc_ids(ids@.take(i + 1int)));
            } else {
                assert(prev.push(44u8) =~= obj_prefix() + (enc_ids(done) + seq![44u8]));
                assert(r@ =~= obj_prefix() + enc_ids(ids@.take(i + 1int)));
            }
        }
        i = i + 1;
    }
    assert(ids@.take(ids@.len() as int) =~= ids@);
    let ghost with_list = r@;
    r.push(93);
    r.push(44);
    r.push(34);
    r.push(99);
    r.push(117);
    r.push(114);
    r.push(115);
    r.push(111);
    r.push(114);
    r.push(34);
    r.push(58);
    assert(r@ =~= with_list + obj_mid());
    let ghost with_mid = r@;
    push_i64(&mut r, coll.cursor);
    r.push(125);
    proof {
        assert((with_mid + enc_i64(coll.cursor as int)).push(125u8) =~= enc_checkpoint(
            coll.ids@,
            coll.cursor as int,
        ));
    }
    r
}

} // verus!

