use vstd::prelude::*;

use crate::error::KnockError;
use itertools::Itertools;
use nvml_wrapper::Nvml;

verus! {

/// Whether `c` is an ASCII decimal digit.
pub open spec fn is_digit(c: char) -> bool {
    '0' <= c && c <= '9'
}

/// The value of a run of decimal digits, most significant first.
pub open spec fn digits_value(d: Seq<char>) -> nat
    decreases d.len(),
{
    if d.len() == 0 {
        0
    } else {
        digits_value(d.drop_last()) * 10 + ((d.last() as u32) - ('0' as u32)) as nat
    }
}

/// The digits of an unsigned number: an optional leading `+` is dropped.
pub open spec fn unsigned_digits(t: Seq<char>) -> Seq<char> {
    if t.len() > 0 && t[0] == '+' {
        t.skip(1)
    } else {
        t
    }
}

/// The `u32` that a token denotes in decimal, if any.
pub open spec fn decimal_u32(t: Seq<char>) -> Option<u32> {
    let d = unsigned_digits(t);
    if d.len() > 0 && (forall|i: int| 0 <= i < d.len() ==> is_digit(#[trigger] d[i]))
        && digits_value(d) <= u32::MAX {
        Some(digits_value(d) as u32)
    } else {
        None
    }
}

proof fn lemma_digits_value_step(s: Seq<char>, p: int, i: int)
    requires
        0 <= p <= i < s.len(),
    ensures
        digits_value(s.subrange(p, i + 1)) == digits_value(s.subrange(p, i)) * 10 + ((s[i] as u32)
            - ('0' as u32)) as nat,
{
    assert(s.subrange(p, i + 1).drop_last() =~= s.subrange(p, i));
}

/// Reads the token `s[start..end]` as a decimal `u32`.
fn parse_u32_at(s: &str, start: usize, end: usize) -> (r: Option<u32>)
    requires
        start <= end <= s@.len(),
    ensures
        r == decimal_u32(s@.subrange(start as int, end as int)),
{
    let ghost t = s@.subrange(start as int, end as int);
    let mut p = start;
    if start < end && s.get_char(start) == '+' {
        p = start + 1;
    }
    let ghost d = unsigned_digits(t);
    assert(d =~= s@.subrange(p as int, end as int));
    if p == end {
        return None;
    }
    let mut acc: u64 = 0;
    let mut big = false;
    let mut i = p;
    while i < end
        invariant
            p <= i <= end <= s@.len(),
            d == s@.subrange(p as int, end as int),
            d == unsigned_digits(t),
            t == s@.subrange(start as int, end as int),
            forall|k: int| p <= k < i ==> is_digit(#[trigger] s@[k]),
            big ==> digits_value(s@.subrange(p as int, i as int)) > u32::MAX,
            !big ==> acc == digits_value(s@.subrange(p as int, i as int)) && acc <= u32::MAX,
        decreases end - i,
    {
        let c = s.get_char(i);
        if !('0' <= c && c <= '9') {
            assert(d[i - p] == c);
            assert(!is_digit(d[i - p]));
            assert(decimal_u32(t).is_none());
            return None;
        }
        proof {
            lemma_digits_value_step(s@, p as int, i as int);
        }
        if !big {
            acc = acc * 10 + ((c as u32) - ('0' as u32)) as u64;
            if acc > u32::MAX as u64 {
                big = true;
            }
        }
        i = i + 1;
    }
    assert(s@.subrange(p as int, i as int) == d);
    if big {
        None
    } else {
        Some(acc as u32)
    }
}


/// The tokens of a comma-separated list, empty ones included.
pub open spec fn split_commas(s: Seq<char>) -> Seq<Seq<char>>
    decreases s.len(),
{
    if s.len() == 0 {
        seq![Seq::empty()]
    } else {
        let prev = split_commas(s.drop_last());
        if s.last() == ',' {
            prev.push(Seq::empty())
        } else {
            prev.update(prev.len() - 1, prev.last().push(s.last()))
        }
    }
}

proof fn lemma_split_commas_nonempty(s: Seq<char>)
    ensures
        split_commas(s).len() >= 1,
    decreases s.len(),
{
    if s.len() > 0 {
        lemma_split_commas_nonempty(s.drop_last());
    }
}

/// A token is accepted when it is empty (skipped) or names a device below `count`.
pub open spec fn token_accepted(t: Seq<char>, count: u32) -> bool {
    t.len() == 0 || (decimal_u32(t) is Some && decimal_u32(t)->0 < count)
}

/// `e` is the error that reports the rejected token `t`.
pub open spec fn reports_token(e: KnockError, t: Seq<char>, count: u32) -> bool {
    match e {
        KnockError::InvalidDevice(text) => t.len() > 0 && decimal_u32(t) is None && text@ == t,
        KnockError::DeviceOutOfRange(v) => decimal_u32(t) == Some(v) && v >= count,
        _ => false,
    }
}

/// Every token of the list is accepted.
pub open spec fn all_tokens_accepted(toks: Seq<Seq<char>>, count: u32) -> bool {
    forall|k: int| 0 <= k < toks.len() ==> token_accepted(#[trigger] toks[k], count)
}

/// Some token of the list names device `x`.
pub open spec fn lists_device(toks: Seq<Seq<char>>, x: u32) -> bool {
    exists|k: int| 0 <= k < toks.len() && decimal_u32(#[trigger] toks[k]) == Some(x)
}

/// `e` reports the first token of the list that is rejected.
pub open spec fn reports_first_rejected(toks: Seq<Seq<char>>, count: u32, e: KnockError) -> bool {
    exists|k: int|
        0 <= k < toks.len() && (forall|j: int| 0 <= j < k ==> token_accepted(#[trigger] toks[j], count))
            && reports_token(e, #[trigger] toks[k], count)
}

/// Strictly ascending: sorted, with no id twice.
pub open spec fn strictly_ascending(v: Seq<u32>) -> bool {
    forall|i: int, j: int| 0 <= i < j < v.len() ==> v[i] < v[j]
}

/// `v` is the outcome of parsing the list `s` for a host with `count` devices:
/// the ids it names, once each, in ascending order.
pub open spec fn parsed_devices(s: Seq<char>, count: u32, v: Seq<u32>) -> bool {
    &&& strictly_ascending(v)
    &&& forall|x: u32| v.contains(x) <==> lists_device(split_commas(s), x)
}

/// Checks the token `s[start..end]`: `None` when it is empty, its id when that
/// is a device below `count`, the error that reports it otherwise.
fn check_token(s: &str, start: usize, end: usize, count: u32) -> (r: Result<Option<u32>, KnockError>)
    requires
        start <= end <= s@.len(),
    ensures
        ({
            let t = s@.subrange(start as int, end as int);
            match r {
                Ok(None) => t.len() == 0,
                Ok(Some(v)) => t.len() > 0 && decimal_u32(t) == Some(v) && v < count,
                Err(e) => !token_accepted(t, count) && reports_token(e, t, count),
            }
        }),
{
    if start == end {
        return Ok(None);
    }
    match parse_u32_at(s, start, end) {
        None => {
            let text = s.substring_char(start, end);
            Err(KnockError::InvalidDevice(text.to_string()))
        },
        Some(v) => {
            if v >= count {
                Err(KnockError::DeviceOutOfRange(v))
            } else {
                Ok(Some(v))
            }
        },
    }
}


proof fn lemma_split_commas_extend(s: Seq<char>, m: int, n: int)
    requires
        0 <= m <= n <= s.len(),
    ensures
        split_commas(s.subrange(0, n)).len() >= split_commas(s.subrange(0, m)).len(),
        forall|k: int|
            0 <= k < split_commas(s.subrange(0, m)).len() - 1 ==> split_commas(s.subrange(0, n))[k]
                == split_commas(s.subrange(0, m))[k],
    decreases n - m,
{
    if n > m {
        lemma_split_commas_extend(s, m, n - 1);
        lemma_split_commas_nonempty(s.subrange(0, n - 1));
        assert(s.subrange(0, n).drop_last() =~= s.subrange(0, n - 1));
    }
}

proof fn lemma_split_commas_step(s: Seq<char>, start: int, i: int, done: Seq<Seq<char>>)
    requires
        0 <= start <= i < s.len(),
        split_commas(s.subrange(0, i)) == done.push(s.subrange(start, i)),
    ensures
        s[i] == ',' ==> split_commas(s.subrange(0, i + 1)) == done.push(s.subrange(start, i)).push(
            s.subrange(i + 1, i + 1),
        ),
        s[i] != ',' ==> split_commas(s.subrange(0, i + 1)) == done.push(s.subrange(start, i + 1)),
{
    assert(s.subrange(0, i + 1).drop_last() =~= s.subrange(0, i));
    assert(s.subrange(i + 1, i + 1) =~= Seq::<char>::empty());
    assert(s.subrange(start, i).push(s[i]) =~= s.subrange(start, i + 1));
    assert(done.push(s.subrange(start, i)).update(done.len() as int, s.subrange(start, i + 1))
        =~= done.push(s.subrange(start, i + 1)));
}

proof fn lemma_lists_device_push(done: Seq<Seq<char>>, t: Seq<char>)
    ensures
        forall|x: u32|
            lists_device(done.push(t), x) <==> (lists_device(done, x) || decimal_u32(t) == Some(x)),
{
    assert forall|x: u32|
        lists_device(done.push(t), x) <==> (lists_device(done, x) || decimal_u32(t) == Some(
            x,
        )) by {
        if lists_device(done, x) {
            let k = choose|k: int| 0 <= k < done.len() && decimal_u32(#[trigger] done[k]) == Some(x);
            assert(done.push(t)[k] == done[k]);
        }
        if decimal_u32(t) == Some(x) {
            assert(done.push(t)[done.len() as int] == t);
        }
        if lists_device(done.push(t), x) {
            let k = choose|k: int|
                0 <= k < done.len() + 1 && decimal_u32(#[trigger] done.push(t)[k]) == Some(x);
            if k < done.len() {
                assert(done.push(t)[k] == done[k]);
            }
        }
    }
}

proof fn lemma_contains_push(a: Seq<u32>, v: u32)
    ensures
        forall|x: u32| a.push(v).contains(x) <==> (a.contains(x) || x == v),
{
    assert forall|x: u32| a.push(v).contains(x) <==> (a.contains(x) || x == v) by {
        if a.contains(x) {
            let k = choose|k: int| 0 <= k < a.len() && a[k] == x;
            assert(a.push(v)[k] == x);
        }
        if x == v {
            assert(a.push(v)[a.len() as int] == v);
        }
        if a.push(v).contains(x) && x != v {
            let k = choose|k: int| 0 <= k < a.len() + 1 && a.push(v)[k] == x;
            assert(a[k] == x);
        }
    }
}

/// Relies on `Itertools::sorted`: the same items, in ascending order.
#[verifier::external_body]
fn sorted_ids(v: Vec<u32>) -> (r: Vec<u32>)
    ensures
        r@.to_multiset() == v@.to_multiset(),
        forall|i: int, j: int| 0 <= i <= j < r@.len() ==> r@[i] <= r@[j],
{
    v.into_iter().sorted().collect()
}

/// The ids of `v`, once each, in ascending order.
fn sorted_unique(v: Vec<u32>) -> (r: Vec<u32>)
    ensures
        strictly_ascending(r@),
        forall|x: u32| r@.contains(x) <==> v@.contains(x),
{
    let ghost v0 = v@;
    let s = sorted_ids(v);
    proof {
        assert forall|x: u32| s@.contains(x) <==> v0.contains(x) by {
            vstd::seq_lib::to_multiset_contains(s@, x);
            vstd::seq_lib::to_multiset_contains(v0, x);
        }
    }
    let mut out: Vec<u32> = Vec::new();
    let mut i: usize = 0;
    while i < s.len()
        invariant
            i <= s@.len(),
            forall|a: int, b: int| 0 <= a <= b < s@.len() ==> s@[a] <= s@[b],
            strictly_ascending(out@),
            i > 0 ==> out@.len() > 0 && out@.last() == s@[i - 1],
            i == 0 ==> out@.len() == 0,
            forall|x: u32| out@.contains(x) <==> s@.subrange(0, i as int).contains(x),
        decreases s@.len() - i,
    {
        let x = s[i];
        let ghost before = out@;
        if out.len() == 0 || out[out.len() - 1] != x {
            out.push(x);
            proof {
                assert forall|a: int, b: int| 0 <= a < b < out@.len() implies out@[a] < out@[b] by {
                    if b == out@.len() - 1 && a < b {
                        assert(before[a] <= before.last());
                    }
                }
            }
        } else {
            proof {
                assert(before[before.len() - 1] == x);
                assert(before.contains(x));
            }
        }
        proof {
            let pre = s@.subrange(0, i as int);
            assert(s@.subrange(0, i + 1) =~= pre.push(x));
            lemma_contains_push(pre, x);
            lemma_contains_push(before, x);
            assert forall|y: u32| out@.contains(y) <==> s@.subrange(0, i + 1).contains(y) by {
                assert(before.contains(y) <==> pre.contains(y));
                if out@ == before {
                    assert(before.contains(x));
                } else {
                    assert(out@ == before.push(x));
                }
            }
        }
        i = i + 1;
    }
    assert(s@.subrange(0, i as int) =~= s@);
    out
}

/// Parses a comma-separated device list for a host with `device_count` devices.
///
/// Empty tokens are skipped. The first token that is not a number, or names a
/// device at or past `device_count`, is reported as the error; otherwise the
/// named ids come back once each, in ascending order.
pub fn parse_cuda_visible_devices_with_device_count(devices_str: &str, device_count: u32) -> (r:
    Result<Vec<u32>, KnockError>)
    ensures
        r is Ok <==> all_tokens_accepted(split_commas(devices_str@), device_count),
        r matches Ok(v) ==> parsed_devices(devices_str@, device_count, v@),
        r matches Err(e) ==> reports_first_rejected(split_commas(devices_str@), device_count, e),
{
    let ghost s = devices_str@;
    let n = devices_str.unicode_len();
    let mut ids: Vec<u32> = Vec::new();
    let mut start: usize = 0;
    let mut i: usize = 0;
    let ghost mut done: Seq<Seq<char>> = Seq::empty();
    assert(s.subrange(0, 0) =~= Seq::<char>::empty());
    assert(split_commas(s.subrange(0, 0)) =~= done.push(s.subrange(0, 0)));
    while i < n
        invariant
            s == devices_str@,
            n == s.len(),
            start <= i <= n,
            split_commas(s.subrange(0, i as int)) == done.push(s.subrange(start as int, i as int)),
            all_tokens_accepted(done, device_count),
            forall|x: u32| ids@.contains(x) <==> lists_device(done, x),
        decreases n - i,
    {
        let c = devices_str.get_char(i);
        proof {
            lemma_split_commas_step(s, start as int, i as int, done);
        }
        if c == ',' {
            let ghost t = s.subrange(start as int, i as int);
            let ghost before = ids@;
            match check_token(devices_str, start, i, device_count) {
                Err(e) => {
                    proof {
                        lemma_split_commas_extend(s, i + 1, n as int);
                        assert(s.subrange(0, n as int) =~= s);
                        let toks = split_commas(s);
                        let k = done.len() as int;
                        assert(done.push(t).push(s.subrange(i + 1, i + 1))[k] == t);
                        assert(toks[k] == t);
                        assert forall|j: int| 0 <= j < k implies token_accepted(
                            #[trigger] toks[j],
                            device_count,
                        ) by {
                            assert(done.push(t).push(s.subrange(i + 1, i + 1))[j] == done[j]);
                        }
                        assert(!all_tokens_accepted(toks, device_count));
                    }
                    return Err(e);
                },
                Ok(None) => {},
                Ok(Some(v)) => {
                    ids.push(v);
                    proof {
                        lemma_contains_push(before, v);
                    }
                },
            }
            proof {
                lemma_lists_device_push(done, t);
                assert forall|x: u32| ids@.contains(x) <==> lists_device(done.push(t), x) by {
                    assert(before.contains(x) <==> lists_device(done, x));
                }
                assert(all_tokens_accepted(done.push(t), device_count)) by {
                    assert forall|k: int| 0 <= k < done.len() + 1 implies token_accepted(
                        #[trigger] done.push(t)[k],
                        device_count,
                    ) by {
                        if k < done.len() {
                            assert(done.push(t)[k] == done[k]);
                        }
                    }
                }
                done = done.push(t);
            }
            start = i + 1;
        }
        i = i + 1;
    }
    assert(s.subrange(0, n as int) =~= s);
    let ghost t = s.subrange(start as int, n as int);
    let ghost before = ids@;
    match check_token(devices_str, start, n, device_count) {
        Err(e) => {
            proof {
                let toks = split_commas(s);
                let k = done.len() as int;
                assert(toks[k] == t);
                assert forall|j: int| 0 <= j < k implies token_accepted(
                    #[trigger] toks[j],
                    device_count,
                ) by {
                    assert(done.push(t)[j] == done[j]);
                }
                assert(!token_accepted(toks[k], device_count));
            }
            return Err(e);
        },
        Ok(None) => {},
        Ok(Some(v)) => {
            ids.push(v);
            proof {
                lemma_contains_push(before, v);
            }
        },
    }
    proof {
        lemma_lists_device_push(done, t);
        let toks = split_commas(s);
        assert(toks == done.push(t));
        assert forall|x: u32| ids@.contains(x) <==> lists_device(toks, x) by {
            assert(before.contains(x) <==> lists_device(done, x));
        }
        assert forall|k: int| 0 <= k < toks.len() implies token_accepted(
            #[trigger] toks[k],
            device_count,
        ) by {
            if k < done.len() {
                assert(done.push(t)[k] == done[k]);
            }
        }

    }
    Ok(sorted_unique(ids))
}


/// Some requested index picks device `x` out of `from`.
pub open spec fn picks_device(pick: Seq<u32>, from: Seq<u32>, x: u32) -> bool {
    exists|k: int| 0 <= k < pick.len() && pick[k] < from.len() && from[#[trigger] pick[k] as int] == x
}

/// Maps each index of `pick_idx` to the device at that place in `from_devices`.
///
/// The first index at or past the end of `from_devices` is reported as the
/// error; otherwise the picked ids come back once each, in ascending order.
pub fn pick_devices(pick_idx: &Vec<u32>, from_devices: &Vec<u32>) -> (r: Result<Vec<u32>, KnockError>)
    ensures
        r is Ok <==> forall|k: int| 0 <= k < pick_idx@.len() ==> #[trigger] pick_idx@[k] < from_devices@.len(),
        r matches Ok(v) ==> strictly_ascending(v@) && forall|x: u32|
            v@.contains(x) <==> picks_device(pick_idx@, from_devices@, x),
        r matches Err(e) ==> exists|k: int|
            0 <= k < pick_idx@.len() && pick_idx@[k] >= from_devices@.len() && (forall|j: int|
                0 <= j < k ==> #[trigger] pick_idx@[j] < from_devices@.len()) && e
                == KnockError::IndexOutOfRange(#[trigger] pick_idx@[k]),
{
    let mut picked: Vec<u32> = Vec::new();
    let mut i: usize = 0;
    while i < pick_idx.len()
        invariant
            i <= pick_idx@.len(),
            forall|j: int| 0 <= j < i ==> #[trigger] pick_idx@[j] < from_devices@.len(),
            forall|x: u32|
                picked@.contains(x) <==> picks_device(pick_idx@.subrange(0, i as int), from_devices@, x),
        decreases pick_idx@.len() - i,
    {
        let idx = pick_idx[i];
        if idx as usize >= from_devices.len() {
            return Err(KnockError::IndexOutOfRange(idx));
        }
        let ghost before = picked@;
        let d = from_devices[idx as usize];
        picked.push(d);
        proof {
            lemma_contains_push(before, d);
            let pre = pick_idx@.subrange(0, i as int);
            let next = pick_idx@.subrange(0, i + 1);
            assert(next =~= pre.push(idx));
            assert forall|x: u32| picked@.contains(x) <==> picks_device(next, from_devices@, x) by {
                assert(before.contains(x) <==> picks_device(pre, from_devices@, x));
                if picks_device(next, from_devices@, x) && x != d {
                    let k = choose|k: int|
                        0 <= k < next.len() && next[k] < from_devices@.len() && from_devices@[#[trigger] next[k] as int] == x;
                    assert(k < pre.len());
                    assert(pre[k] == next[k]);
                    assert(from_devices@[pre[k] as int] == x);
                }
                if picks_device(pre, from_devices@, x) {
                    let k = choose|k: int|
                        0 <= k < pre.len() && pre[k] < from_devices@.len() && from_devices@[#[trigger] pre[k] as int] == x;
                    assert(pre[k] == next[k]);
                    assert(from_devices@[next[k] as int] == x);
                }
                if x == d {
                    assert(next[i as int] == idx);
                    assert(from_devices@[next[i as int] as int] == d);
                }
            }
        }
        i = i + 1;
    }
    assert(pick_idx@.subrange(0, i as int) =~= pick_idx@);
    Ok(sorted_unique(picked))
}

/// `s` holds the items of `d`, in ascending order.
pub open spec fn sorted_permutation(s: Seq<u32>, d: Seq<u32>) -> bool {
    &&& s.to_multiset() == d.to_multiset()
    &&& forall|i: int, j: int| 0 <= i <= j < s.len() ==> s[i] <= s[j]
}

/// Holds a device list to the bounds of a run.
///
/// Fewer than `min_required` devices is an error. More than `max_allowed` is
/// not: the list is cut to its `max_allowed` lowest ids, and the flag that
/// comes back with it says that a cut was made. The ids come back ascending.
pub fn clamp_to_bounds(devices: Vec<u32>, min_required: usize, max_allowed: usize) -> (r: Result<
    (Vec<u32>, bool),
    KnockError,
>)
    ensures
        r is Err <==> devices@.len() < min_required,
        r matches Err(e) ==> e == (KnockError::NotEnoughDevices {
            available: devices@.len() as usize,
            required: min_required,
        }),
        r matches Ok((v, truncated)) ==> {
            &&& truncated == (devices@.len() > max_allowed)
            &&& exists|s: Seq<u32>|
                sorted_permutation(s, devices@) && v@ == s.take(
                    if truncated { max_allowed as int } else { s.len() as int },
                )
            &&& forall|i: int, x: u32|
                0 <= i < v@.len() && #[trigger] devices@.contains(x) && x < #[trigger] v@[i]
                    ==> v@.contains(x)
        },
{
    if devices.len() < min_required {
        return Err(KnockError::NotEnoughDevices { available: devices.len(), required: min_required });
    }
    let ghost d = devices@;
    let truncated = devices.len() > max_allowed;
    let mut v = sorted_ids(devices);
    let ghost s = v@;
    if truncated {
        v.truncate(max_allowed);
    }
    proof {
        let k = if truncated { max_allowed as int } else { s.len() as int };
        assert(s.to_multiset().len() == d.to_multiset().len());
        vstd::seq_lib::to_multiset_len(s);
        vstd::seq_lib::to_multiset_len(d);
        assert(v@ =~= s.take(k));
        assert(sorted_permutation(s, d));
        assert forall|i: int, x: u32|
            0 <= i < v@.len() && #[trigger] d.contains(x) && x < #[trigger] v@[i] implies v@.contains(
                x,
            ) by {
            vstd::seq_lib::to_multiset_contains(s, x);
            vstd::seq_lib::to_multiset_contains(d, x);
            let j = choose|j: int| 0 <= j < s.len() && s[j] == x;
            if j >= k {
                assert(s[i] <= s[j]);
            } else {
                assert(v@[j] == x);
            }
        }
    }
    Ok((v, truncated))
}


/// The ids `0` up to `count`, ascending.
pub open spec fn ids_below(count: u32) -> Seq<u32> {
    Seq::new(count as nat, |i: int| i as u32)
}

/// Checks that the telemetry source can be started on this machine.
pub fn is_cuda_available() -> (r: Result<(), KnockError>)
    ensures
        r matches Err(e) ==> e == KnockError::TelemetrySource,
{
    match Nvml::init() {
        Ok(_) => Ok(()),
        Err(_) => Err(KnockError::TelemetrySource),
    }
}

/// The number of devices that the telemetry source reports.
fn device_count() -> (r: Result<u32, KnockError>)
    ensures
        r matches Err(e) ==> e == KnockError::TelemetrySource,
{
    let nvml = match Nvml::init() {
        Ok(nvml) => nvml,
        Err(_) => return Err(KnockError::TelemetrySource),
    };
    match nvml.device_count() {
        Ok(count) => Ok(count),
        Err(_) => Err(KnockError::TelemetrySource),
    }
}

/// The ids of a host with `count` devices: `0` up to `count`, ascending.
pub fn device_ids_below(count: u32) -> (r: Vec<u32>)
    ensures
        r@ == ids_below(count),
{
    let mut ids: Vec<u32> = Vec::new();
    let mut i: u32 = 0;
    while i < count
        invariant
            i <= count,
            ids@.len() == i,
            forall|k: int| 0 <= k < ids@.len() ==> #[trigger] ids@[k] == k,
        decreases count - i,
    {
        ids.push(i);
        i = i + 1;
    }
    assert(ids@ =~= ids_below(count));
    ids
}

/// Every device id of the host, `0` up to the device count, ascending.
pub fn get_all_devices() -> (r: Result<Vec<u32>, KnockError>)
    ensures
        r matches Ok(v) ==> exists|count: u32| v@ == ids_below(count),
        r matches Err(e) ==> e == KnockError::TelemetrySource,
{
    let count = match device_count() {
        Ok(count) => count,
        Err(e) => return Err(e),
    };
    Ok(device_ids_below(count))
}

/// Parses a comma-separated device list against the host's device count.
pub fn parse_cuda_visible_devices(devices_str: &str) -> (r: Result<Vec<u32>, KnockError>)
    ensures
        r matches Ok(v) ==> exists|count: u32|
            all_tokens_accepted(split_commas(devices_str@), count) && parsed_devices(
                devices_str@,
                count,
                v@,
            ),
        r matches Err(e) ==> e == KnockError::TelemetrySource || exists|count: u32|
            reports_first_rejected(split_commas(devices_str@), count, e),
{
    let count = match device_count() {
        Ok(count) => count,
        Err(e) => return Err(e),
    };
    parse_cuda_visible_devices_with_device_count(devices_str, count)
}

/// `vis` is the visible-device set of a host with `count` devices: what the
/// setting `visible` lists, or every device when there is no setting.
pub open spec fn visible_set(visible: Option<&str>, count: u32, vis: Seq<u32>) -> bool {
    match visible {
        Some(s) => all_tokens_accepted(split_commas(s@), count) && parsed_devices(s@, count, vis),
        None => vis == ids_below(count),
    }
}

/// The devices this run may consider: those that `visible` lists when a
/// visible-device setting is given, every device of the host otherwise.
pub fn get_visible_devices(visible: Option<&str>) -> (r: Result<Vec<u32>, KnockError>)
    ensures
        r matches Ok(v) ==> exists|count: u32| visible_set(visible, count, v@),
        r matches Err(e) ==> e == KnockError::TelemetrySource || (visible matches Some(s)
            && exists|count: u32| reports_first_rejected(split_commas(s@), count, e)),
{
    match visible {
        Some(s) => match parse_cuda_visible_devices(s) {
            Ok(v) => {
                proof {
                    let count = choose|count: u32|
                        all_tokens_accepted(split_commas(s@), count) && parsed_devices(
                            s@,
                            count,
                            v@,
                        );
                    assert(visible_set(visible, count, v@));
                }
                Ok(v)
            },
            Err(e) => Err(e),
        },
        None => match get_all_devices() {
            Ok(v) => {
                proof {
                    let count = choose|count: u32| v@ == ids_below(count);
                    assert(visible_set(visible, count, v@));
                }
                Ok(v)
            },
            Err(e) => Err(e),
        },
    }
}

/// `v` is what a run on a host with `count` devices resolves to: the
/// visible-device set, narrowed by `selection` (indices into that set) when
/// one is given.
pub open spec fn resolved_devices(
    selection: Option<&str>,
    visible: Option<&str>,
    count: u32,
    v: Seq<u32>,
) -> bool {
    exists|vis: Seq<u32>|
        visible_set(visible, count, vis) && match selection {
            None => v == vis,
            Some(sel) => exists|picks: Seq<u32>|
                all_tokens_accepted(split_commas(sel@), count) && parsed_devices(
                    sel@,
                    count,
                    picks,
                ) && (forall|k: int| 0 <= k < picks.len() ==> #[trigger] picks[k] < vis.len())
                    && strictly_ascending(v) && forall|x: u32|
                    v.contains(x) <==> picks_device(picks, vis, x),
        }
}

/// `e` is an error that resolving for a host with `count` devices may stop
/// on: a rejected token of either list, or a selection index past the end of
/// the visible set.
pub open spec fn resolution_error(
    selection: Option<&str>,
    visible: Option<&str>,
    count: u32,
    e: KnockError,
) -> bool {
    ||| (visible matches Some(s) && reports_first_rejected(split_commas(s@), count, e))
    ||| (selection matches Some(sel) && reports_first_rejected(split_commas(sel@), count, e))
    ||| e is IndexOutOfRange
}

/// Resolves the devices to check on a host with `device_count` devices.
///
/// The visible set is what `visible` lists, or every device when it is
/// `None`. A `selection` lists indices into that set (each also below
/// `device_count`); the devices at those places are kept.
pub fn resolve_devices_with_device_count(
    selection: Option<&str>,
    visible: Option<&str>,
    device_count: u32,
) -> (r: Result<Vec<u32>, KnockError>)
    ensures
        r matches Ok(v) ==> resolved_devices(selection, visible, device_count, v@),
        r matches Err(e) ==> resolution_error(selection, visible, device_count, e),
        (visible matches Some(s) && !all_tokens_accepted(split_commas(s@), device_count)) ==> r is Err,
        (selection matches Some(sel) && !all_tokens_accepted(split_commas(sel@), device_count)) ==> r is Err,
        r matches Err(KnockError::IndexOutOfRange(i)) ==> exists|vis: Seq<u32>|
            visible_set(visible, device_count, vis) && i >= vis.len(),
{
    let vis = match visible {
        Some(s) => match parse_cuda_visible_devices_with_device_count(s, device_count) {
            Ok(v) => v,
            Err(e) => return Err(e),
        },
        None => device_ids_below(device_count),
    };
    assert(visible_set(visible, device_count, vis@));
    match selection {
        None => Ok(vis),
        Some(sel) => {
            let picks = match parse_cuda_visible_devices_with_device_count(sel, device_count) {
                Ok(p) => p,
                Err(e) => return Err(e),
            };
            match pick_devices(&picks, &vis) {
                Ok(v) => {
                    assert(visible_set(visible, device_count, vis@) && match selection {
                        None => v@ == vis@,
                        Some(sel) => exists|picks: Seq<u32>|
                            all_tokens_accepted(split_commas(sel@), device_count)
                                && parsed_devices(sel@, device_count, picks) && (forall|k: int|
                                0 <= k < picks.len() ==> #[trigger] picks[k] < vis@.len())
                                && strictly_ascending(v@) && forall|x: u32|
                                v@.contains(x) <==> picks_device(picks, vis@, x),
                    });
                    Ok(v)
                },
                Err(e) => Err(e),
            }
        },
    }
}

/// Resolves the devices to check against the host's device count.
pub fn resolve_devices(selection: Option<&str>, visible: Option<&str>) -> (r: Result<
    Vec<u32>,
    KnockError,
>)
    ensures
        r matches Ok(v) ==> exists|count: u32| resolved_devices(selection, visible, count, v@),
        r matches Err(e) ==> e == KnockError::TelemetrySource || exists|count: u32|
            resolution_error(selection, visible, count, e),
{
    let count = match device_count() {
        Ok(count) => count,
        Err(e) => return Err(e),
    };
    resolve_devices_with_device_count(selection, visible, count)
}

/// A strictly ascending sequence is fixed by the items it holds.
pub proof fn lemma_ascending_same_items_equal(v1: Seq<u32>, v2: Seq<u32>)
    requires
        strictly_ascending(v1),
        strictly_ascending(v2),
        forall|x: u32| v1.contains(x) <==> v2.contains(x),
    ensures
        v1 == v2,
    decreases v1.len() + v2.len(),
{
    if v1.len() == 0 && v2.len() > 0 {
        assert(v2.contains(v2[0]));
    } else if v2.len() == 0 && v1.len() > 0 {
        assert(v1.contains(v1[0]));
    } else if v1.len() > 0 && v2.len() > 0 {
        assert(v1.contains(v1[0]));
        assert(v2.contains(v2[0]));
        let j2 = choose|j: int| 0 <= j < v2.len() && v2[j] == v1[0];
        let j1 = choose|j: int| 0 <= j < v1.len() && v1[j] == v2[0];
        if j1 > 0 {
            assert(v1[0] < v1[j1]);
        }
        if j2 > 0 {
            assert(v2[0] < v2[j2]);
        }
        assert(v1[0] == v2[0]);
        let t1 = v1.drop_first();
        let t2 = v2.drop_first();
        assert forall|x: u32| t1.contains(x) <==> t2.contains(x) by {
            if t1.contains(x) {
                let k = choose|k: int| 0 <= k < t1.len() && t1[k] == x;
                assert(v1[k + 1] == x && v1[0] < v1[k + 1]);
                assert(v1.contains(x));
                let m = choose|m: int| 0 <= m < v2.len() && v2[m] == x;
                assert(m > 0);
                assert(t2[m - 1] == x);
            }
            if t2.contains(x) {
                let k = choose|k: int| 0 <= k < t2.len() && t2[k] == x;
                assert(v2[k + 1] == x && v2[0] < v2[k + 1]);
                assert(v2.contains(x));
                let m = choose|m: int| 0 <= m < v1.len() && v1[m] == x;
                assert(m > 0);
                assert(t1[m - 1] == x);
            }
        }
        lemma_ascending_same_items_equal(t1, t2);
        assert(v1 =~= seq![v1[0]] + t1);
        assert(v2 =~= seq![v2[0]] + t2);
    }
}

/// Parsing does not depend on the order of the ids in a list, nor on how
/// often an id is repeated: two lists that name the same ids parse to the
/// same result.
pub proof fn lemma_parse_ignores_order_and_repeats(
    s1: Seq<char>,
    s2: Seq<char>,
    count: u32,
    v1: Seq<u32>,
    v2: Seq<u32>,
)
    requires
        parsed_devices(s1, count, v1),
        parsed_devices(s2, count, v2),
        forall|x: u32| lists_device(split_commas(s1), x) <==> lists_device(split_commas(s2), x),
    ensures
        v1 == v2,
{
    lemma_ascending_same_items_equal(v1, v2);
}

/// A rejected token is never masked by the others: a list that holds one is
/// not accepted, and the first rejected token, which the error reports,
/// stands at or before it.
pub proof fn lemma_rejected_token_not_masked(s: Seq<char>, count: u32, k: int)
    requires
        0 <= k < split_commas(s).len(),
        !token_accepted(split_commas(s)[k], count),
    ensures
        !all_tokens_accepted(split_commas(s), count),
        exists|j: int|
            0 <= j <= k && !token_accepted(#[trigger] split_commas(s)[j], count) && forall|i: int|
                0 <= i < j ==> token_accepted(#[trigger] split_commas(s)[i], count),
    decreases k,
{
    let toks = split_commas(s);
    if forall|i: int| 0 <= i < k ==> token_accepted(#[trigger] toks[i], count) {
        assert(0 <= k <= k && !token_accepted(toks[k], count));
    } else {
        let i = choose|i: int| 0 <= i < k && !token_accepted(#[trigger] toks[i], count);
        lemma_rejected_token_not_masked(s, count, i);
    }
}

} // verus!
