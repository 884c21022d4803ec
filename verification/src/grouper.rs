//! The grouping algorithm: partitions a set of problem identifiers into
//! decimal-range buckets so that no bucket holds more identifiers than a
//! given threshold, and derives a folder name from each bucket.
//!
//! An identifier `n` belongs, at granularity `unit` (a power of ten), to
//! the bucket starting at `(n / unit) * unit`. The algorithm starts at
//! the largest unit not exceeding the largest identifier and subdivides
//! every oversized bucket by the next smaller unit, stopping at unit 10:
//! a bucket that is still oversized there is accepted as a leaf.

use std::collections::HashMap;
use vstd::prelude::*;

use crate::digits::dec_digits;
use crate::digits::is_pow10;
use crate::digits::lemma_log10_bounds;
use crate::digits::lemma_log10_pow10;
use crate::digits::lemma_n_digits_le;
use crate::digits::lemma_n_digits_u64;
use crate::digits::lemma_pow10_log10_unique;
use crate::digits::lemma_pow10_mono;
use crate::digits::lemma_pow10_pos;
use crate::digits::lemma_pow10_step_down;
use crate::digits::lemma_n_digits_between;
use crate::digits::lemma_pow10_add;
use crate::digits::lemma_zp_len;
use crate::digits::lemma_zp_lt;
use crate::digits::lemma_zp_pad;
use crate::digits::lemma_zp_trunc;
use crate::digits::lemma_log10_mono;
use crate::digits::lex_lt;
use crate::digits::zp;
use crate::digits::log10;
use crate::digits::n_digits;
use crate::digits::ndigits_u64;
use crate::digits::pow10;
use crate::digits::push_char;
use crate::digits::repeat_char;
use crate::digits::u64_to_string;
use crate::seqs::lemma_filter_absorb;
use crate::seqs::lemma_filter_all;
use crate::seqs::lemma_filter_mem;
use crate::seqs::lemma_filter_push;
use crate::seqs::lemma_filter_sub;
use crate::seqs::lemma_push_contains;
use crate::seqs::lemma_take_push;

verus! {

broadcast use vstd::std_specs::hash::group_hash_axioms;

/// The start of the bucket that holds `n` at granularity `unit`.
pub open spec fn group_of(n: int, unit: int) -> int {
    (n / unit) * unit
}

/// The predicate selecting members of the bucket starting at `g` with
/// granularity `unit`.
pub open spec fn bucket_pred(unit: int, g: int) -> spec_fn(u32) -> bool {
    |m: u32| group_of(m as int, unit) == g
}

/// All members of `all` that share `n`'s bucket at granularity `unit`.
pub open spec fn members_at(all: Seq<u32>, n: u32, unit: int) -> Seq<u32> {
    all.filter(bucket_pred(unit, group_of(n as int, unit)))
}

/// The granularity at which `n`'s bucket is accepted as a leaf, starting
/// the search at `unit`: the first unit, going down by factors of ten,
/// at which `n`'s bucket has at most `t` members — or 10, the smallest
/// granularity, where the bucket is accepted even if oversized.
pub open spec fn final_unit(all: Seq<u32>, t: int, n: u32, unit: int) -> int
    decreases unit,
{
    if unit <= 10 || members_at(all, n, unit).len() <= t {
        unit
    } else {
        final_unit(all, t, n, unit / 10)
    }
}

/// The largest element of a sequence (0 if empty).
pub open spec fn max_of(s: Seq<u32>) -> int
    decreases s.len(),
{
    if s.len() == 0 {
        0
    } else if s.last() as int >= max_of(s.drop_last()) {
        s.last() as int
    } else {
        max_of(s.drop_last())
    }
}

/// The starting granularity for a set whose largest element is `m`: the
/// largest power of ten not exceeding `m`, but no smaller than 10.
pub open spec fn start_unit_spec(m: int) -> int {
    if m < 10 {
        10
    } else {
        pow10(log10(m)) as int
    }
}

/// The granularity of the leaf bucket that finally holds `n`.
pub open spec fn bucket_unit(all: Seq<u32>, t: int, n: u32) -> int {
    final_unit(all, t, n, start_unit_spec(max_of(all)))
}

/// The start of the leaf bucket that finally holds `n`.
pub open spec fn bucket_start(all: Seq<u32>, t: int, n: u32) -> int {
    group_of(n as int, bucket_unit(all, t, n))
}

/// The last identifier value covered by `n`'s leaf bucket.
pub open spec fn bucket_end(all: Seq<u32>, t: int, n: u32) -> int {
    bucket_start(all, t, n) + bucket_unit(all, t, n) - 1
}

/// The largest bucket end over the elements of `s`.
pub open spec fn max_end(all: Seq<u32>, t: int, s: Seq<u32>) -> int
    decreases s.len(),
{
    if s.len() == 0 {
        0
    } else if bucket_end(all, t, s.last()) >= max_end(all, t, s.drop_last()) {
        bucket_end(all, t, s.last())
    } else {
        max_end(all, t, s.drop_last())
    }
}

/// The common width of all folder names: the number of digits of the
/// largest bucket end.
pub open spec fn width_spec(all: Seq<u32>, t: int) -> nat {
    n_digits(max_end(all, t, all))
}

/// The folder name of the bucket starting at `gs` with granularity
/// `unit`: the bucket prefix digits, one placeholder per trailing
/// digit, zero-padded on the left to `w` characters.
pub open spec fn folder_name_spec(gs: int, unit: int, w: int, ph: char) -> Seq<char> {
    let base = dec_digits(gs / unit) + repeat_char(ph, log10(unit));
    if base.len() >= w {
        base
    } else {
        repeat_char('0', (w - base.len()) as nat)
        + base
    }
}

/// The folder path assigned to `n`: empty (the root) when the whole set
/// fits the threshold, otherwise the name of `n`'s leaf bucket.
pub open spec fn structure_at(all: Seq<u32>, t: int, ph: char, n: u32) -> Seq<char> {
    if all.len() <= t {
        Seq::empty()
    } else {
        folder_name_spec(
            bucket_start(all, t, n),
            bucket_unit(all, t, n),
            width_spec(all, t) as int,
            ph,
        )
    }
}

/// The largest power of ten not exceeding `max_num`, but at least 10.
pub fn find_largest_unit(max_num: u32) -> (r: u32)
    ensures
        r as int == start_unit_spec(max_num as int),
        is_pow10(r as int),
        10 * (r as int) > max_num as int,
{
    let mut unit: u32 = 10;
    proof {
        assert(pow10(0) == 1);
        assert(pow10(1) == 10 * pow10(0));
        lemma_log10_pow10(1);
    }
    while unit <= max_num / 10
        invariant
            10 <= unit,
            is_pow10(unit as int),
            unit == 10 || unit as int <= max_num as int,
        decreases max_num as int - unit as int,
    {
        proof {
            vstd::arithmetic::div_mod::lemma_fundamental_div_mod(max_num as int, 10);
            lemma_log10_pow10(log10(unit as int) + 1);
            assert(pow10(log10(unit as int) + 1) == 10 * pow10(log10(unit as int)));
        }
        unit = unit * 10;
    }
    proof {
        vstd::arithmetic::div_mod::lemma_fundamental_div_mod(max_num as int, 10);
        assert(10 * (unit as int) > max_num as int);
        if max_num >= 10 {
            lemma_pow10_log10_unique(unit as int, max_num as int);
        } else {
            assert(log10(unit as int) >= 1) by {
                if log10(unit as int) == 0 {
                    assert(pow10(0) == 1);
                }
            }
        }
    }
    unit
}

/// The number of trailing digits a bucket of granularity `unit` masks:
/// the floor of the base-10 logarithm of `unit`.
pub fn count_trailing(unit: u32) -> (r: usize)
    ensures
        r == log10(unit as int),
{
    let mut count: usize = 0;
    let mut u: u32 = unit;
    while u >= 10
        invariant
            count + log10(u as int) == log10(unit as int),
            count <= log10(unit as int),
        decreases u,
    {
        proof {
            reveal_with_fuel(pow10, 12);
            assert(pow10(10) > u32::MAX);
            lemma_n_digits_le(unit as int, 10);
        }
        u = u / 10;
        count = count + 1;
    }
    count
}

/// The number of decimal digits of `n` (1 for 0).
pub fn digit_count(n: u64) -> (r: usize)
    ensures
        r == n_digits(n as int),
{
    ndigits_u64(n)
}

/// Finds the position of `g` in `keys`, if present.
fn find_key(keys: &Vec<u32>, g: u32) -> (res: Option<usize>)
    ensures
        match res {
            Some(k) => k < keys@.len() && keys@[k as int] == g,
            None => forall|j: int| 0 <= j < keys@.len() ==> keys@[j] != g,
        },
{
    let mut k: usize = 0;
    while k < keys.len()
        invariant
            k <= keys@.len(),
            forall|j: int| 0 <= j < k ==> keys@[j] != g,
        decreases keys@.len() - k,
    {
        if keys[k] == g {
            return Some(k);
        }
        k = k + 1;
    }
    None
}

/// Partitions `numbers` into buckets of granularity `unit`. Each pair
/// in the result holds a bucket start and the members of that bucket in
/// input order; bucket starts are pairwise distinct, and every number
/// falls in exactly one returned bucket.
pub fn group_by_unit(numbers: &Vec<u32>, unit: u32) -> (r: Vec<(u32, Vec<u32>)>)
    requires
        unit >= 1,
    ensures
        forall|k: int| #![trigger r@[k]]
            0 <= k < r@.len() ==> {
                &&& r@[k].1@.len() > 0
                &&& r@[k].0 as int == group_of(r@[k].1@[0] as int, unit as int)
                &&& r@[k].1@ == numbers@.filter(bucket_pred(unit as int, r@[k].0 as int))
            },
        forall|k1: int, k2: int|
            0 <= k1 < r@.len() && 0 <= k2 < r@.len() && k1 != k2 ==> r@[k1].0 != r@[k2].0,
        forall|n: u32|
            numbers@.contains(n) ==> exists|k: int|
                0 <= k < r@.len() && #[trigger] r@[k].0 as int == group_of(n as int, unit as int),
{
    let ghost u = unit as int;
    let mut keys: Vec<u32> = Vec::new();
    let mut grps: Vec<Vec<u32>> = Vec::new();
    let mut i: usize = 0;
    while i < numbers.len()
        invariant
            unit >= 1,
            u == unit as int,
            i <= numbers@.len(),
            keys@.len() == grps@.len(),
            forall|k: int| #![trigger grps@[k]] 0 <= k < keys@.len() ==> grps@[k]@.len() > 0,
            forall|k: int| #![trigger grps@[k]]
                0 <= k < keys@.len() ==> keys@[k] as int == group_of(grps@[k]@[0] as int, u),
            forall|k: int| #![trigger grps@[k]]
                0 <= k < keys@.len() ==> grps@[k]@ == numbers@.take(i as int).filter(
                    bucket_pred(u, keys@[k] as int),
                ),
            forall|k1: int, k2: int|
                0 <= k1 < keys@.len() && 0 <= k2 < keys@.len() && k1 != k2 ==> keys@[k1]
                    != keys@[k2],
            forall|n: u32|
                numbers@.take(i as int).contains(n) ==> exists|k: int|
                    0 <= k < keys@.len() && #[trigger] keys@[k] as int == group_of(n as int, u),
        decreases numbers@.len() - i,
    {
        let num = numbers[i];
        let q = num / unit;
        proof {
            assert((num as int / u) * u <= num as int) by {
                vstd::arithmetic::div_mod::lemma_fundamental_div_mod(num as int, u);
                vstd::arithmetic::div_mod::lemma_mod_bound(num as int, u);
            }
        }
        let g = q * unit;
        proof {
            assert(g as int == group_of(num as int, u));
            lemma_take_push(numbers@, i as int);
        }
        let ghost old_keys = keys@;
        let ghost old_grps = grps@;
        proof {
            assert forall|kk: int| #![trigger old_keys[kk]] 0 <= kk < old_keys.len() implies numbers@.take(
                i as int + 1,
            ).filter(bucket_pred(u, old_keys[kk] as int)) == (if old_keys[kk]
                == g {
                old_grps[kk]@.push(num)
            } else {
                old_grps[kk]@
            }) by {
                lemma_filter_push(
                    numbers@.take(i as int),
                    num,
                    bucket_pred(u, old_keys[kk] as int),
                );
            }
        }
        match find_key(&keys, g) {
            Some(k) => {
                grps[k].push(num);
                proof {
                    assert(keys@ == old_keys);
                    assert(grps@[k as int]@ == old_grps[k as int]@.push(num));
                    assert forall|kk: int| #![trigger grps@[kk]]
                        0 <= kk < keys@.len() implies grps@[kk]@.len() > 0 && keys@[kk] as int
                        == group_of(grps@[kk]@[0] as int, u) && grps@[kk]@ == numbers@.take(
                        i as int + 1,
                    ).filter(bucket_pred(u, keys@[kk] as int)) by {
                        if kk == k {
                            assert(grps@[kk]@[0] == old_grps[kk]@[0]);
                        } else {
                            assert(keys@[kk] != g);
                            assert(grps@[kk]@ == old_grps[kk]@);
                        }
                    }
                    assert(keys@[k as int] as int == group_of(num as int, u));
                }
            },
            None => {
                keys.push(g);
                let mut fresh: Vec<u32> = Vec::new();
                fresh.push(num);
                grps.push(fresh);
                proof {
                    let pred = bucket_pred(u, g as int);
                    assert(numbers@.take(i as int).filter(pred) =~= Seq::<u32>::empty()) by {
                        if numbers@.take(i as int).filter(pred).len() > 0 {
                            let x = numbers@.take(i as int).filter(pred)[0];
                            assert(numbers@.take(i as int).filter(pred).contains(x));
                            lemma_filter_sub(numbers@.take(i as int), pred, x);
                            let xi = choose|xi: int|
                                0 <= xi < numbers@.take(i as int).len() && numbers@.take(
                                    i as int,
                                )[xi] == x;
                            // x is in the prefix, so its bucket key is recorded
                            assert(numbers@.take(i as int).contains(x));
                            let kk = choose|kk: int|
                                0 <= kk < old_keys.len() && #[trigger] old_keys[kk] as int
                                    == group_of(x as int, u);
                            assert(old_keys[kk] != g);
                            assert(false);
                        }
                    }
                    lemma_filter_push(numbers@.take(i as int), num, pred);
                    let last = keys@.len() - 1;
                    assert(keys@[last] == g);
                    assert(grps@[last]@ =~= Seq::<u32>::empty().push(num));
                    assert forall|kk: int| #![trigger grps@[kk]]
                        0 <= kk < keys@.len() implies grps@[kk]@.len() > 0 && keys@[kk] as int
                        == group_of(grps@[kk]@[0] as int, u) && grps@[kk]@ == numbers@.take(
                        i as int + 1,
                    ).filter(bucket_pred(u, keys@[kk] as int)) by {
                        if kk < last {
                            assert(keys@[kk] == old_keys[kk]);
                            assert(grps@[kk]@ == old_grps[kk]@);
                            assert(old_keys[kk] != g);
                        } else {
                            assert(grps@[kk]@ == Seq::<u32>::empty().push(num));
                            assert(grps@[kk]@[0] == num);
                        }
                    }
                    assert(keys@[last] as int == group_of(num as int, u));
                }
            },
        }
        proof {
            assert forall|n: u32| #[trigger] numbers@.take(i as int + 1).contains(n) implies exists|k: int|
                0 <= k < keys@.len() && #[trigger] keys@[k] as int == group_of(n as int, u) by {
                if numbers@.take(i as int).contains(n) {
                    let kk = choose|kk: int|
                        0 <= kk < old_keys.len() && #[trigger] old_keys[kk] as int == group_of(
                            n as int,
                            u,
                        );
                    assert(keys@[kk] as int == group_of(n as int, u));
                } else {
                    assert(n == num);
                    let kk = choose|kk: int|
                        0 <= kk < keys@.len() && #[trigger] keys@[kk] as int == group_of(
                            num as int,
                            u,
                        );
                    assert(keys@[kk] as int == group_of(n as int, u));
                }
            }
        }
        i = i + 1;
    }
    proof {
        assert(numbers@.take(numbers@.len() as int) =~= numbers@);
    }
    // zip the parallel vectors
    let mut r: Vec<(u32, Vec<u32>)> = Vec::new();
    let mut j: usize = 0;
    while j < keys.len()
        invariant
            keys@.len() == grps@.len(),
            j <= keys@.len(),
            r@.len() == j,
            forall|k: int| #![trigger r@[k]]
                0 <= k < j ==> r@[k].0 == keys@[k] && r@[k].1@ == grps@[k]@,
        decreases keys@.len() - j,
    {
        let key = keys[j];
        let grp = grps[j].clone();
        proof {
            assert(grp@ =~= grps@[j as int]@);
        }
        r.push((key, grp));
        j = j + 1;
    }
    proof {
        assert forall|n: u32| numbers@.contains(n) implies exists|k: int|
            0 <= k < r@.len() && #[trigger] r@[k].0 as int == group_of(n as int, unit as int) by {
            let kk = choose|kk: int|
                0 <= kk < keys@.len() && #[trigger] keys@[kk] as int == group_of(n as int, u);
            assert(r@[kk].0 as int == group_of(n as int, u));
        }
    }
    r
}

/// The folder name of the bucket starting at `group_start` with
/// granularity `unit`: the bucket's leading digits, one `placeholder`
/// per masked trailing digit, zero-padded on the left to `total_width`.
pub fn format_folder_name(group_start: u32, unit: u32, total_width: usize, placeholder: char) -> (r:
    String)
    requires
        unit >= 1,
    ensures
        r@ == folder_name_spec(group_start as int, unit as int, total_width as int, placeholder),
{
    let prefix = group_start / unit;
    let trailing_count = count_trailing(unit);
    let prefix_str = u64_to_string(prefix as u64);
    let prefix_len = digit_count(prefix as u64);
    proof {
        lemma_n_digits_u64(prefix as u64);
        lemma_zp_len(prefix as int, n_digits(prefix as int));
        reveal_with_fuel(pow10, 12);
        assert(pow10(10) > u32::MAX);
        lemma_n_digits_le(unit as int, 10);
    }
    let base_len = prefix_len + trailing_count;
    let mut s = String::new();
    let mut pad: usize = 0;
    let ghost padding: nat = if total_width > base_len {
        (total_width - base_len) as nat
    } else {
        0
    };
    while pad + base_len < total_width
        invariant
            base_len <= 20 + 10,
            pad <= padding,
            padding == if total_width > base_len {
                (total_width - base_len) as int
            } else {
                0
            },
            s@ == repeat_char('0', pad as nat),
        decreases total_width - pad,
    {
        push_char(&mut s, '0');
        proof {
            assert(s@ =~= repeat_char('0', (pad + 1) as nat));
        }
        pad = pad + 1;
    }
    proof {
        assert(pad == padding);
    }
    s.append(prefix_str.as_str());
    let mut tc: usize = 0;
    while tc < trailing_count
        invariant
            tc <= trailing_count,
            s@ == repeat_char('0', padding) + dec_digits(prefix as int) + repeat_char(
                placeholder,
                tc as nat,
            ),
        decreases trailing_count - tc,
    {
        push_char(&mut s, placeholder);
        proof {
            assert(s@ =~= repeat_char('0', padding) + dec_digits(prefix as int) + repeat_char(
                placeholder,
                (tc + 1) as nat,
            ));
        }
        tc = tc + 1;
    }
    proof {
        let base = dec_digits(group_start as int / (unit as int)) + repeat_char(
            placeholder,
            log10(unit as int),
        );
        assert(prefix as int == group_start as int / (unit as int));
        assert(base.len() == n_digits(prefix as int) + log10(unit as int));
        if base.len() >= total_width as int {
            assert(padding == 0);
            assert(s@ =~= base);
        } else {
            assert(s@ =~= repeat_char('0', (total_width - base.len()) as nat) + base);
        }
    }
    s
}

/// Two identifiers in the same bucket at some granularity are in the
/// same bucket at the next coarser granularity.
proof fn lemma_group_refine(m: u32, n: u32, unit: int)
    requires
        unit >= 1,
        group_of(m as int, unit) == group_of(n as int, unit),
    ensures
        group_of(m as int, 10 * unit) == group_of(n as int, 10 * unit),
{
    let mi = m as int;
    let ni = n as int;
    assert(mi / unit == ni / unit) by {
        vstd::arithmetic::mul::lemma_mul_equality_converse(unit, mi / unit, ni / unit);
    }
    vstd::arithmetic::div_mod::lemma_div_denominator(mi, unit, 10);
    vstd::arithmetic::div_mod::lemma_div_denominator(ni, unit, 10);
    assert(mi / (unit * 10) == ni / (unit * 10));
    assert(unit * 10 == 10 * unit);
}

/// A bucket of a frontier entry, filtered out of that entry, is the
/// same bucket filtered out of the whole set.
proof fn lemma_bucket_absorb(all: Seq<u32>, ns: Seq<u32>, unit: int, parent: int, g: int, rep: u32)
    requires
        unit >= 1,
        ns == all.filter(bucket_pred(10 * unit, parent)),
        ns.contains(rep),
        g == group_of(rep as int, unit),
    ensures
        ns.filter(bucket_pred(unit, g)) == all.filter(bucket_pred(unit, g)),
{
    lemma_filter_sub(all, bucket_pred(10 * unit, parent), rep);
    assert(group_of(rep as int, 10 * unit) == parent);
    assert forall|x: u32| #[trigger] bucket_pred(unit, g)(x) implies bucket_pred(
        10 * unit,
        parent,
    )(x) by {
        lemma_group_refine(x, rep, unit);
    }
    lemma_filter_absorb(all, bucket_pred(10 * unit, parent), bucket_pred(unit, g));
}

/// The largest element bounds every element.
proof fn lemma_max_of_ge(s: Seq<u32>, n: u32)
    requires
        s.contains(n),
    ensures
        n as int <= max_of(s),
    decreases s.len(),
{
    if s.len() > 0 {
        if n == s.last() {
        } else {
            let i = choose|i: int| 0 <= i < s.len() && s[i] == n;
            if i < s.len() - 1 {
                assert(s.drop_last()[i] == n);
                lemma_max_of_ge(s.drop_last(), n);
            }
        }
    }
}

/// Every element's bucket end is bounded by the largest bucket end.
proof fn lemma_max_end_ge(all: Seq<u32>, t: int, s: Seq<u32>, n: u32)
    requires
        s.contains(n),
    ensures
        bucket_end(all, t, n) <= max_end(all, t, s),
    decreases s.len(),
{
    if s.len() > 0 {
        if n == s.last() {
        } else {
            let i = choose|i: int| 0 <= i < s.len() && s[i] == n;
            if i < s.len() - 1 {
                assert(s.drop_last()[i] == n);
                lemma_max_end_ge(all, t, s.drop_last(), n);
            }
        }
    }
}

/// The largest bucket end of a nonempty sequence is attained.
proof fn lemma_max_end_witness(all: Seq<u32>, t: int, s: Seq<u32>)
    ensures
        max_end(all, t, s) == 0 || exists|n: u32| #[trigger]
            s.contains(n) && max_end(all, t, s) == bucket_end(all, t, n),
    decreases s.len(),
{
    if s.len() == 0 {
    } else if bucket_end(all, t, s.last()) >= max_end(all, t, s.drop_last()) {
        assert(s.contains(s.last()));
    } else {
        lemma_max_end_witness(all, t, s.drop_last());
        if max_end(all, t, s.drop_last()) != 0 {
            let n = choose|n: u32| #[trigger] s.drop_last().contains(n) && max_end(
                all,
                t,
                s.drop_last(),
            ) == bucket_end(all, t, n);
            let i = choose|i: int| 0 <= i < s.drop_last().len() && s.drop_last()[i] == n;
            assert(s[i] == n);
            assert(s.contains(n));
        }
    }
}

/// The leaf granularity search stays within powers of ten between 10
/// and its starting point.
proof fn lemma_final_unit_pow10(all: Seq<u32>, t: int, n: u32, su: int)
    requires
        is_pow10(su),
        su >= 10,
    ensures
        is_pow10(final_unit(all, t, n, su)),
        10 <= final_unit(all, t, n, su) <= su,
    decreases su,
{
    if su <= 10 || members_at(all, n, su).len() <= t {
    } else {
        lemma_pow10_step_down(su);
        assert(su / 10 >= 10) by {
            if log10(su) == 1 {
                assert(pow10(1) == 10 * pow10(0));
                assert(pow10(0) == 1);
            } else {
                lemma_pow10_mono(1, (log10(su) - 1) as nat);
                assert(pow10(1) == 10 * pow10(0));
                assert(pow10(0) == 1);
            }
        }
        lemma_final_unit_pow10(all, t, n, su / 10);
    }
}

/// Whether `n` appears in one of the frontier entries.
pub open spec fn in_cur(cur: Seq<Vec<u32>>, n: u32) -> bool {
    exists|k: int| 0 <= k < cur.len() && #[trigger] cur[k]@.contains(n)
}

/// Whether `n` appears in one of the buckets of a partition.
pub open spec fn in_groups(gs: Seq<(u32, Vec<u32>)>, n: u32) -> bool {
    exists|k: int| 0 <= k < gs.len() && #[trigger] gs[k].1@.contains(n)
}

/// Whether `n` appears in one of the finalized buckets.
pub open spec fn in_fin(fin: Seq<(u32, u32, Vec<u32>)>, n: u32) -> bool {
    exists|k: int| 0 <= k < fin.len() && #[trigger] fin[k].2@.contains(n)
}

/// A frontier entry awaiting subdivision at granularity `unit`: one
/// whole bucket of `all` at granularity `10 * unit`, each of whose
/// members still has its leaf search positioned at `unit`.
pub open spec fn pending_ok(all: Seq<u32>, t: int, su: int, unit: int, ns: Seq<u32>) -> bool {
    &&& ns.len() > 0
    &&& ns == all.filter(bucket_pred(10 * unit, group_of(ns[0] as int, 10 * unit)))
    &&& forall|n: u32| #[trigger]
        ns.contains(n) ==> final_unit(all, t, n, su) == final_unit(all, t, n, unit)
}

/// A finalized bucket: start `s`, granularity `fu`, and exactly the
/// members of `all` whose leaf bucket it is.
pub open spec fn final_ok(all: Seq<u32>, t: int, su: int, s: int, fu: int, ns: Seq<u32>) -> bool {
    &&& ns.len() > 0
    &&& is_pow10(fu) && 10 <= fu <= su
    &&& s == group_of(ns[0] as int, fu)
    &&& ns == all.filter(bucket_pred(fu, s))
    &&& forall|n: u32| #[trigger] ns.contains(n) ==> final_unit(all, t, n, su) == fu
}

/// Maps each identifier to its folder path: the empty path when the
/// whole set fits the threshold, else the name of the leaf bucket the
/// subdivision assigns it. The folder name encodes the bucket's range:
/// its leading digits, one `placeholder` per masked digit, zero-padded
/// so that all names share one width and sort like the ranges they
/// denote.
#[verifier::rlimit(100)]
pub fn compute_structure(numbers: &Vec<u32>, threshold: usize, placeholder: char) -> (r: HashMap<
    u32,
    String,
>)
    ensures
        forall|n: u32| #[trigger] r@.contains_key(n) <==> numbers@.contains(n),
        forall|n: u32|
            numbers@.contains(n) ==> (#[trigger] r@[n])@ == structure_at(
                numbers@,
                threshold as int,
                placeholder,
                n,
            ),
{
    let ghost all = numbers@;
    let ghost t = threshold as int;
    let mut result: HashMap<u32, String> = HashMap::new();
    if numbers.len() <= threshold {
        let mut i: usize = 0;
        while i < numbers.len()
            invariant
                all == numbers@,
                i <= all.len(),
                forall|n: u32| #[trigger]
                    result@.contains_key(n) <==> all.take(i as int).contains(n),
                forall|n: u32|
                    result@.contains_key(n) ==> (#[trigger] result@[n])@ == Seq::<char>::empty(),
            decreases all.len() - i,
        {
            let s = String::new();
            let num = numbers[i];
            result.insert(num, s);
            proof {
                lemma_take_push(all, i as int);
                assert forall|n: u32| #[trigger]
                    result@.contains_key(n) <==> all.take(i as int + 1).contains(n) by {
                    lemma_push_contains(all.take(i as int), num, n);
                }
            }
            i = i + 1;
        }
        proof {
            assert(all.take(all.len() as int) =~= all);
        }
        return result;
    }
    // the whole set is oversized: subdivide, largest granularity first
    let mut mx: u32 = 0;
    let mut i: usize = 0;
    while i < numbers.len()
        invariant
            all == numbers@,
            i <= all.len(),
            mx as int == max_of(all.take(i as int)),
        decreases all.len() - i,
    {
        proof {
            lemma_take_push(all, i as int);
            assert(all.take(i as int + 1).drop_last() =~= all.take(i as int));
        }
        if numbers[i] > mx {
            mx = numbers[i];
        }
        i = i + 1;
    }
    proof {
        assert(all.take(all.len() as int) =~= all);
    }
    let start_unit = find_largest_unit(mx);
    let ghost su = start_unit as int;
    let mut seed: Vec<u32> = Vec::new();
    let mut i: usize = 0;
    while i < numbers.len()
        invariant
            all == numbers@,
            i <= all.len(),
            seed@ == all.take(i as int),
        decreases all.len() - i,
    {
        seed.push(numbers[i]);
        proof {
            lemma_take_push(all, i as int);
        }
        i = i + 1;
    }
    proof {
        assert(all.take(all.len() as int) =~= all);
        // the whole set is one bucket at granularity 10 * start_unit
        assert forall|k: int| 0 <= k < all.len() implies #[trigger] bucket_pred(
            10 * su,
            group_of(all[0] as int, 10 * su),
        )(all[k]) by {
            assert(all.contains(all[k]));
            assert(all.contains(all[0]));
            lemma_max_of_ge(all, all[k]);
            lemma_max_of_ge(all, all[0]);
            vstd::arithmetic::div_mod::lemma_basic_div(all[k] as int, 10 * su);
            vstd::arithmetic::div_mod::lemma_basic_div(all[0] as int, 10 * su);
        }
        lemma_filter_all(all, bucket_pred(10 * su, group_of(all[0] as int, 10 * su)));
        assert(pending_ok(all, t, su, su, seed@));
    }
    let mut cur: Vec<Vec<u32>> = Vec::new();
    cur.push(seed);
    let mut finalized: Vec<(u32, u32, Vec<u32>)> = Vec::new();
    let mut unit: u32 = start_unit;
    proof {
        assert forall|n: u32| all.contains(n) implies in_cur(cur@, n) || in_fin(finalized@, n) by {
            assert(cur@[0]@.contains(n));
        }
    }
    while cur.len() > 0
        invariant
            all == numbers@,
            t == threshold as int,
            su == start_unit as int,
            su == start_unit_spec(max_of(all)),
            all.len() > t,
            is_pow10(unit as int),
            10 <= unit as int <= su,
            forall|k: int|
                0 <= k < cur@.len() ==> pending_ok(all, t, su, unit as int, #[trigger] cur@[k]@),
            forall|k: int| #![trigger finalized@[k]]
                0 <= k < finalized@.len() ==> final_ok(
                    all,
                    t,
                    su,
                    finalized@[k].0 as int,
                    finalized@[k].1 as int,
                    finalized@[k].2@,
                ),
            forall|n: u32| all.contains(n) ==> in_cur(cur@, n) || in_fin(finalized@, n),
        decreases unit as int, cur@.len(),
    {
        let mut next: Vec<Vec<u32>> = Vec::new();
        while cur.len() > 0
            invariant
                all == numbers@,
                t == threshold as int,
                su == start_unit as int,
                su == start_unit_spec(max_of(all)),
                is_pow10(unit as int),
                10 <= unit as int <= su,
                forall|k: int|
                    0 <= k < cur@.len() ==> pending_ok(all, t, su, unit as int, #[trigger] cur@[k]@),
                unit as int == 10 ==> next@.len() == 0,
                forall|k: int|
                    0 <= k < next@.len() ==> unit > 10 && pending_ok(
                        all,
                        t,
                        su,
                        unit as int / 10,
                        #[trigger] next@[k]@,
                    ),
                forall|k: int| #![trigger finalized@[k]]
                    0 <= k < finalized@.len() ==> final_ok(
                        all,
                        t,
                        su,
                        finalized@[k].0 as int,
                        finalized@[k].1 as int,
                        finalized@[k].2@,
                    ),
                forall|n: u32|
                    all.contains(n) ==> in_cur(cur@, n) || in_cur(next@, n) || in_fin(
                        finalized@,
                        n,
                    ),
            decreases cur@.len(),
        {
            let ghost cur_before = cur@;
            let ns = match cur.pop() {
                Some(v) => v,
                None => Vec::new(),
            };
            proof {
                assert(cur_before[cur_before.len() - 1] == ns);
                assert(pending_ok(all, t, su, unit as int, ns@));
            }
            let mut groups = group_by_unit(&ns, unit);
            let ghost groups_all = groups@;
            proof {
                assert(groups_all.take(groups_all.len() as int) =~= groups_all);
                // each bucket of `ns` is a whole bucket of `all`
                assert forall|k: int| #![trigger groups_all[k]] 0 <= k < groups_all.len() implies {
                    &&& groups_all[k].1@.len() > 0
                    &&& groups_all[k].0 as int == group_of(groups_all[k].1@[0] as int, unit as int)
                    &&& groups_all[k].1@ == all.filter(bucket_pred(unit as int, groups_all[k].0 as int))
                    &&& groups_all[k].1@.contains(groups_all[k].1@[0])
                    &&& ns@.contains(groups_all[k].1@[0])
                } by {
                    let rep = groups_all[k].1@[0];
                    assert(groups_all[k].1@.contains(rep));
                    lemma_filter_sub(ns@, bucket_pred(unit as int, groups_all[k].0 as int), rep);
                    lemma_bucket_absorb(
                        all,
                        ns@,
                        unit as int,
                        group_of(ns@[0] as int, 10 * (unit as int)),
                        groups_all[k].0 as int,
                        rep,
                    );
                }
                // every member of `ns` is in one of its buckets
                assert forall|n: u32| #[trigger] ns@.contains(n) implies in_groups(groups@, n) by {
                    let k = choose|k: int|
                        0 <= k < groups_all.len() && #[trigger] groups_all[k].0 as int == group_of(
                            n as int,
                            unit as int,
                        );
                    lemma_filter_sub(
                        all,
                        bucket_pred(10 * (unit as int), group_of(ns@[0] as int, 10 * (unit as int))),
                        n,
                    );
                    lemma_filter_mem(all, bucket_pred(unit as int, groups_all[k].0 as int), n);
                    assert(groups@[k].1@.contains(n));
                }
                assert forall|n: u32| all.contains(n) implies in_cur(cur@, n) || in_groups(
                    groups@,
                    n,
                ) || in_cur(next@, n) || in_fin(finalized@, n) by {
                    if in_cur(cur_before, n) {
                        let k = choose|k: int|
                            0 <= k < cur_before.len() && #[trigger] cur_before[k]@.contains(n);
                        if k < cur@.len() {
                            assert(cur@[k]@.contains(n));
                        } else {
                            assert(ns@.contains(n));
                        }
                    }
                }
            }
            while groups.len() > 0
                invariant
                    all == numbers@,
                    t == threshold as int,
                    su == start_unit as int,
                    su == start_unit_spec(max_of(all)),
                    is_pow10(unit as int),
                    10 <= unit as int <= su,
                    pending_ok(all, t, su, unit as int, ns@),
                    groups@.len() <= groups_all.len(),
                    groups@ == groups_all.take(groups@.len() as int),
                    forall|k: int| #![trigger groups_all[k]]
                        0 <= k < groups_all.len() ==> {
                            &&& groups_all[k].1@.len() > 0
                            &&& groups_all[k].0 as int == group_of(
                                groups_all[k].1@[0] as int,
                                unit as int,
                            )
                            &&& groups_all[k].1@ == all.filter(
                                bucket_pred(unit as int, groups_all[k].0 as int),
                            )
                            &&& ns@.contains(groups_all[k].1@[0])
                        },
                    forall|k: int|
                        0 <= k < cur@.len() ==> pending_ok(
                            all,
                            t,
                            su,
                            unit as int,
                            #[trigger] cur@[k]@,
                        ),
                    unit as int == 10 ==> next@.len() == 0,
                    forall|k: int|
                        0 <= k < next@.len() ==> unit > 10 && pending_ok(
                            all,
                            t,
                            su,
                            unit as int / 10,
                            #[trigger] next@[k]@,
                        ),
                    forall|k: int| #![trigger finalized@[k]]
                        0 <= k < finalized@.len() ==> final_ok(
                            all,
                            t,
                            su,
                            finalized@[k].0 as int,
                            finalized@[k].1 as int,
                            finalized@[k].2@,
                        ),
                    forall|n: u32|
                        all.contains(n) ==> in_cur(cur@, n) || in_groups(groups@, n) || in_cur(
                            next@,
                            n,
                        ) || in_fin(finalized@, n),
                decreases groups@.len(),
            {
                let ghost groups_before = groups@;
                let ghost gi: int = groups_before.len() as int - 1;
                let popped = match groups.pop() {
                    Some(p) => p,
                    None => (0, Vec::new()),
                };
                proof {
                    assert(groups_before.len() > 0);
                    assert(groups@.len() == groups_before.len() - 1);
                    assert(popped == groups_before[gi]);
                    assert(groups_before[gi] == groups_all[gi]);
                    assert(groups@ =~= groups_all.take(groups@.len() as int));
                }
                let g = popped.0;
                let grp = popped.1;
                proof {
                    assert(g == groups_all[gi].0 && grp@ == groups_all[gi].1@);
                    assert(grp@ == all.filter(bucket_pred(unit as int, g as int)));
                    assert(grp@.len() > 0);
                    assert(ns@.contains(grp@[0]));
                    assert(g as int == group_of(grp@[0] as int, unit as int));
                    lemma_bucket_absorb(
                        all,
                        ns@,
                        unit as int,
                        group_of(ns@[0] as int, 10 * (unit as int)),
                        g as int,
                        grp@[0],
                    );
                    // every member's bucket at this granularity is `grp`
                    assert forall|n: u32| #[trigger] grp@.contains(n) implies members_at(
                        all,
                        n,
                        unit as int,
                    ) == grp@ && ns@.contains(n) by {
                        lemma_filter_sub(all, bucket_pred(unit as int, g as int), n);
                        assert(group_of(n as int, unit as int) == g as int);
                        assert(ns@.filter(bucket_pred(unit as int, g as int)).contains(n));
                        lemma_filter_sub(ns@, bucket_pred(unit as int, g as int), n);
                    }
                }
                if grp.len() > threshold && unit > 10 {
                    proof {
                        lemma_pow10_step_down(unit as int);
                        assert(unit as int / 10 >= 10) by {
                            if log10(unit as int) == 1 {
                                assert(pow10(1) == 10 * pow10(0));
                                assert(pow10(0) == 1);
                            } else {
                                lemma_pow10_mono(1, (log10(unit as int) - 1) as nat);
                                assert(pow10(1) == 10 * pow10(0));
                                assert(pow10(0) == 1);
                            }
                        }
                        // the leaf search steps past this oversized bucket
                        assert forall|n: u32| #[trigger] grp@.contains(n) implies final_unit(
                            all,
                            t,
                            n,
                            su,
                        ) == final_unit(all, t, n, unit as int / 10) by {
                            assert(members_at(all, n, unit as int).len() > t);
                            assert(final_unit(all, t, n, unit as int) == final_unit(
                                all,
                                t,
                                n,
                                unit as int / 10,
                            ));
                        }
                        assert(10 * (unit as int / 10) == unit as int);
                        assert(group_of(grp@[0] as int, unit as int) == g as int);
                        assert(pending_ok(all, t, su, unit as int / 10, grp@));
                    }
                    let ghost next_before = next@;
                    next.push(grp);
                    proof {
                        assert forall|n: u32| all.contains(n) implies in_cur(cur@, n) || in_groups(
                            groups@,
                            n,
                        ) || in_cur(next@, n) || in_fin(finalized@, n) by {
                            if in_groups(groups_before, n) {
                                let k = choose|k: int|
                                    0 <= k < groups_before.len() && #[trigger] groups_before[k].1@.contains(
                                        n,
                                    );
                                if k < groups@.len() {
                                    assert(groups@[k].1@.contains(n));
                                } else {
                                    assert(next@[next@.len() - 1]@.contains(n));
                                }
                            } else if in_cur(next_before, n) {
                                let k = choose|k: int|
                                    0 <= k < next_before.len() && #[trigger] next_before[k]@.contains(
                                        n,
                                    );
                                assert(next@[k]@.contains(n));
                            }
                        }
                    }
                } else {
                    proof {
                        assert forall|n: u32| #[trigger] grp@.contains(n) implies final_unit(
                            all,
                            t,
                            n,
                            su,
                        ) == unit as int by {
                            assert(members_at(all, n, unit as int) == grp@);
                            assert(final_unit(all, t, n, unit as int) == unit as int);
                        }
                        assert(group_of(grp@[0] as int, unit as int) == g as int);
                        assert(final_ok(all, t, su, g as int, unit as int, grp@));
                    }
                    let ghost fin_before = finalized@;
                    finalized.push((g, unit, grp));
                    proof {
                        assert forall|k: int| #![trigger finalized@[k]]
                            0 <= k < finalized@.len() implies final_ok(
                            all,
                            t,
                            su,
                            finalized@[k].0 as int,
                            finalized@[k].1 as int,
                            finalized@[k].2@,
                        ) by {
                            if k < fin_before.len() {
                                assert(finalized@[k] == fin_before[k]);
                            }
                        }
                        assert forall|n: u32| all.contains(n) implies in_cur(cur@, n) || in_groups(
                            groups@,
                            n,
                        ) || in_cur(next@, n) || in_fin(finalized@, n) by {
                            if in_groups(groups_before, n) {
                                let k = choose|k: int|
                                    0 <= k < groups_before.len() && #[trigger] groups_before[k].1@.contains(
                                        n,
                                    );
                                if k < groups@.len() {
                                    assert(groups@[k].1@.contains(n));
                                } else {
                                    assert(finalized@[finalized@.len() - 1].2@.contains(n));
                                }
                            } else if in_fin(fin_before, n) {
                                let k = choose|k: int|
                                    0 <= k < fin_before.len() && #[trigger] fin_before[k].2@.contains(
                                        n,
                                    );
                                assert(finalized@[k].2@.contains(n));
                            }
                        }
                    }
                }
            }
            proof {
                assert(forall|k: int| 0 <= k < cur@.len() ==> #[trigger] cur@[k] == cur_before[k]);
                // the popped entry's members are all distributed now
                assert forall|n: u32| all.contains(n) implies in_cur(cur@, n) || in_cur(next@, n)
                    || in_fin(finalized@, n) by {
                    if in_cur(cur_before, n) {
                        let k = choose|k: int|
                            0 <= k < cur_before.len() && #[trigger] cur_before[k]@.contains(n);
                        if k < cur@.len() {
                            assert(cur@[k]@.contains(n));
                        }
                    }
                }
            }
        }
        cur = next;
        proof {
            assert(unit as int > 10 || cur@.len() == 0);
        }
        if unit > 10 {
            proof {
                lemma_pow10_step_down(unit as int);
                assert(unit as int / 10 >= 10) by {
                    if log10(unit as int) == 1 {
                        assert(pow10(1) == 10 * pow10(0));
                        assert(pow10(0) == 1);
                    } else {
                        lemma_pow10_mono(1, (log10(unit as int) - 1) as nat);
                        assert(pow10(1) == 10 * pow10(0));
                        assert(pow10(0) == 1);
                    }
                }
            }
            unit = unit / 10;
        }
    }
    // all buckets are finalized; compute the shared folder-name width
    let mut me: u64 = 0;
    let mut i: usize = 0;
    proof {
        assert(finalized@.len() > 0) by {
            assert(all.len() > 0);
            assert(all.contains(all[0]));
        }
    }
    while i < finalized.len()
        invariant
            all == numbers@,
            t == threshold as int,
            su == start_unit_spec(max_of(all)),
            all.len() > t,
            i <= finalized@.len(),
            finalized@.len() > 0,
            forall|k: int| #![trigger finalized@[k]]
                0 <= k < finalized@.len() ==> final_ok(
                    all,
                    t,
                    su,
                    finalized@[k].0 as int,
                    finalized@[k].1 as int,
                    finalized@[k].2@,
                ),
            forall|k: int| #![trigger finalized@[k]]
                0 <= k < i ==> finalized@[k].0 as int + finalized@[k].1 as int - 1 <= me as int,
            i > 0 ==> exists|k: int|
                0 <= k < i && me as int == #[trigger] finalized@[k].0 as int + finalized@[k].1 as int
                    - 1,
            i == 0 ==> me == 0,
        decreases finalized@.len() - i,
    {
        let e = finalized[i].0 as u64 + finalized[i].1 as u64 - 1;
        proof {
            assert(finalized[i as int].1 >= 10);
        }
        if e > me || i == 0 {
            me = e;
        }
        i = i + 1;
    }
    proof {
        // the largest finalized bucket end is the largest bucket end of all
        let kw = choose|k: int|
            0 <= k < finalized@.len() && me as int == #[trigger] finalized@[k].0 as int
                + finalized@[k].1 as int - 1;
        let rep = finalized@[kw].2@[0];
        assert(finalized@[kw].2@.contains(rep));
        lemma_filter_sub(all, bucket_pred(finalized@[kw].1 as int, finalized@[kw].0 as int), rep);
        assert(bucket_unit(all, t, rep) == finalized@[kw].1 as int);
        assert(bucket_start(all, t, rep) == finalized@[kw].0 as int);
        lemma_max_end_ge(all, t, all, rep);
        lemma_max_end_witness(all, t, all);
        assert(max_end(all, t, all) >= bucket_end(all, t, rep));
        assert(bucket_end(all, t, rep) == me as int);
        assert(me as int >= 9);
        let nw = choose|n: u32| #[trigger] all.contains(n) && max_end(all, t, all) == bucket_end(
            all,
            t,
            n,
        );
        let kf = choose|k: int| 0 <= k < finalized@.len() && #[trigger] finalized@[k].2@.contains(nw);
        assert(bucket_unit(all, t, nw) == finalized@[kf].1 as int);
        assert(bucket_pred(finalized@[kf].1 as int, finalized@[kf].0 as int)(nw)) by {
            lemma_filter_sub(
                all,
                bucket_pred(finalized@[kf].1 as int, finalized@[kf].0 as int),
                nw,
            );
        }
        assert(bucket_end(all, t, nw) <= me as int);
        assert(me as int == max_end(all, t, all));
    }
    let w = digit_count(me);
    proof {
        assert(w == width_spec(all, t));
    }
    // name every finalized bucket and record its members
    let mut i: usize = 0;
    while i < finalized.len()
        invariant
            all == numbers@,
            t == threshold as int,
            su == start_unit_spec(max_of(all)),
            all.len() > t,
            w == width_spec(all, t),
            i <= finalized@.len(),
            forall|k: int| #![trigger finalized@[k]]
                0 <= k < finalized@.len() ==> final_ok(
                    all,
                    t,
                    su,
                    finalized@[k].0 as int,
                    finalized@[k].1 as int,
                    finalized@[k].2@,
                ),
            forall|n: u32| #[trigger]
                result@.contains_key(n) ==> all.contains(n) && result@[n]@ == structure_at(
                    all,
                    t,
                    placeholder,
                    n,
                ),
            forall|k: int, j: int|
                0 <= k < i && 0 <= j < finalized@[k].2@.len() ==> result@.contains_key(
                    #[trigger] finalized@[k].2@[j],
                ),
        decreases finalized@.len() - i,
    {
        let g = finalized[i].0;
        let fu = finalized[i].1;
        let name = format_folder_name(g, fu, w, placeholder);
        let mut j: usize = 0;
        while j < finalized[i].2.len()
            invariant
                all == numbers@,
                t == threshold as int,
                su == start_unit_spec(max_of(all)),
                all.len() > t,
                w == width_spec(all, t),
                i < finalized@.len(),
                j <= finalized@[i as int].2@.len(),
                g == finalized@[i as int].0,
                fu == finalized@[i as int].1,
                name@ == folder_name_spec(g as int, fu as int, w as int, placeholder),
                final_ok(all, t, su, g as int, fu as int, finalized@[i as int].2@),
                forall|k: int| #![trigger finalized@[k]]
                    0 <= k < finalized@.len() ==> final_ok(
                        all,
                        t,
                        su,
                        finalized@[k].0 as int,
                        finalized@[k].1 as int,
                        finalized@[k].2@,
                    ),
                forall|n: u32| #[trigger]
                    result@.contains_key(n) ==> all.contains(n) && result@[n]@ == structure_at(
                        all,
                        t,
                        placeholder,
                        n,
                    ),
                forall|k: int, jj: int|
                    0 <= k < i && 0 <= jj < finalized@[k].2@.len() ==> result@.contains_key(
                        #[trigger] finalized@[k].2@[jj],
                    ),
                forall|jj: int|
                    0 <= jj < j ==> result@.contains_key(#[trigger] finalized@[i as int].2@[jj]),
            decreases finalized@[i as int].2@.len() - j,
        {
            let n = finalized[i].2[j];
            proof {
                assert(finalized@[i as int].2@.contains(n));
                lemma_filter_sub(all, bucket_pred(fu as int, g as int), n);
                assert(bucket_unit(all, t, n) == fu as int);
                assert(bucket_start(all, t, n) == g as int);
                assert(structure_at(all, t, placeholder, n) == folder_name_spec(
                    g as int,
                    fu as int,
                    w as int,
                    placeholder,
                ));
            }
            let named = name.clone();
            result.insert(n, named);
            j = j + 1;
        }
        i = i + 1;
    }
    proof {
        assert forall|n: u32| #[trigger] result@.contains_key(n) <==> all.contains(n) by {
            if all.contains(n) {
                assert(in_fin(finalized@, n));
                let k = choose|k: int|
                    0 <= k < finalized@.len() && #[trigger] finalized@[k].2@.contains(n);
                let j = choose|j: int|
                    0 <= j < finalized@[k].2@.len() && finalized@[k].2@[j] == n;
                assert(result@.contains_key(finalized@[k].2@[j]));
            }
        }
    }
    result
}

/// A bucket's range contains its members.
proof fn lemma_group_bounds(ni: int, u: int)
    requires
        u >= 1,
        ni >= 0,
    ensures
        0 <= group_of(ni, u) <= ni < group_of(ni, u) + u,
{
    vstd::arithmetic::div_mod::lemma_fundamental_div_mod(ni, u);
    vstd::arithmetic::div_mod::lemma_mod_bound(ni, u);
    vstd::arithmetic::div_mod::lemma_div_pos_is_pos(ni, u);
    vstd::arithmetic::mul::lemma_mul_nonnegative(ni / u, u);
    vstd::arithmetic::mul::lemma_mul_is_commutative(ni / u, u);
}

/// A value inside a bucket's range belongs to that bucket.
proof fn lemma_group_same(x: int, ni: int, u: int)
    requires
        u >= 1,
        ni >= 0,
        group_of(ni, u) <= x < group_of(ni, u) + u,
    ensures
        group_of(x, u) == group_of(ni, u),
{
    vstd::arithmetic::div_mod::lemma_fundamental_div_mod_converse(
        x,
        u,
        ni / u,
        x - group_of(ni, u),
    );
}

/// Sharing a bucket at some granularity implies sharing the bucket at
/// ten times that granularity.
proof fn lemma_refine_step(mi: int, ni: int, u: int)
    requires
        u >= 1,
        mi >= 0,
        ni >= 0,
        group_of(mi, u) == group_of(ni, u),
    ensures
        group_of(mi, 10 * u) == group_of(ni, 10 * u),
{
    assert(mi / u == ni / u) by {
        vstd::arithmetic::mul::lemma_mul_is_commutative(u, mi / u);
        vstd::arithmetic::mul::lemma_mul_is_commutative(u, ni / u);
        vstd::arithmetic::mul::lemma_mul_equality_converse(u, mi / u, ni / u);
    }
    vstd::arithmetic::div_mod::lemma_div_denominator(mi, u, 10);
    vstd::arithmetic::div_mod::lemma_div_denominator(ni, u, 10);
    assert(mi / (u * 10) == ni / (u * 10));
    assert(u * 10 == 10 * u);
}

/// A power of ten that exceeds another is at least ten times it.
proof fn lemma_pow10_gap(v: int, u: int)
    requires
        is_pow10(v),
        is_pow10(u),
        v < u,
    ensures
        u >= 10,
        v <= u / 10,
        10 * (u / 10) == u,
{
    assert(u >= 10) by {
        if log10(u) == 0 {
            assert(pow10(0) == 1);
        } else {
            lemma_pow10_mono(1, log10(u));
            assert(pow10(1) == 10 * pow10(0));
            assert(pow10(0) == 1);
        }
    }
    lemma_pow10_step_down(u);
    assert(log10(v) < log10(u)) by {
        if log10(v) >= log10(u) {
            lemma_pow10_mono(log10(u), log10(v));
        }
    }
    lemma_pow10_mono(log10(v), (log10(u) - 1) as nat);
}

/// Sharing a bucket at one power of ten implies sharing the bucket at
/// every larger power of ten.
proof fn lemma_refine_up(mi: int, ni: int, v: int, u: int)
    requires
        is_pow10(v),
        is_pow10(u),
        v <= u,
        mi >= 0,
        ni >= 0,
        group_of(mi, v) == group_of(ni, v),
    ensures
        group_of(mi, u) == group_of(ni, u),
    decreases u,
{
    if v < u {
        lemma_pow10_gap(v, u);
        lemma_pow10_step_down(u);
        lemma_refine_up(mi, ni, v, u / 10);
        lemma_refine_step(mi, ni, u / 10);
    }
}

/// An identifier that shares another's leaf bucket shares its whole
/// leaf search, so both end at the same granularity.
proof fn lemma_final_unit_agrees(all: Seq<u32>, t: int, m: u32, n: u32, u: int)
    requires
        is_pow10(u),
        u >= 10,
        group_of(m as int, final_unit(all, t, n, u)) == group_of(
            n as int,
            final_unit(all, t, n, u),
        ),
    ensures
        final_unit(all, t, m, u) == final_unit(all, t, n, u),
    decreases u,
{
    let fu = final_unit(all, t, n, u);
    lemma_final_unit_pow10(all, t, n, u);
    lemma_refine_up(m as int, n as int, fu, u);
    assert(group_of(m as int, u) == group_of(n as int, u));
    assert(members_at(all, m, u) == members_at(all, n, u));
    if u <= 10 || members_at(all, n, u).len() <= t {
    } else {
        assert(u > 10);
        assert(pow10(0) == 1);
        assert(pow10(1) == 10 * pow10(0));
        lemma_log10_pow10(1);
        lemma_pow10_gap(10, u);
        lemma_final_unit_agrees(all, t, m, n, u / 10);
    }
}

/// The largest element of a sequence is non-negative.
proof fn lemma_max_of_nonneg(s: Seq<u32>)
    ensures
        max_of(s) >= 0,
    decreases s.len(),
{
    if s.len() > 0 {
        lemma_max_of_nonneg(s.drop_last());
    }
}

/// The starting granularity is a power of ten, at least 10.
proof fn lemma_start_unit_pow10(x: int)
    requires
        x >= 0,
    ensures
        is_pow10(start_unit_spec(x)),
        start_unit_spec(x) >= 10,
{
    assert(pow10(0) == 1);
    assert(pow10(1) == 10 * pow10(0));
    lemma_log10_pow10(1);
    if x >= 10 {
        lemma_log10_pow10(log10(x));
        lemma_pow10_mono(1, log10(x));
    }
}

/// Leaf buckets of two identifiers either coincide or cover disjoint
/// ranges of identifiers.
pub proof fn lemma_buckets_disjoint(all: Seq<u32>, t: int, m: u32, n: u32)
    ensures
        (bucket_start(all, t, m) == bucket_start(all, t, n) && bucket_unit(all, t, m)
            == bucket_unit(all, t, n)) || bucket_end(all, t, m) < bucket_start(all, t, n)
            || bucket_end(all, t, n) < bucket_start(all, t, m),
{
    let su = start_unit_spec(max_of(all));
    lemma_max_of_nonneg(all);
    lemma_start_unit_pow10(max_of(all));
    lemma_final_unit_pow10(all, t, m, su);
    lemma_final_unit_pow10(all, t, n, su);
    let u1 = bucket_unit(all, t, m);
    let s1 = bucket_start(all, t, m);
    let u2 = bucket_unit(all, t, n);
    let s2 = bucket_start(all, t, n);
    if s1 <= s2 + u2 - 1 && s2 <= s1 + u1 - 1 {
        lemma_group_bounds(m as int, u1);
        lemma_group_bounds(n as int, u2);
        if u1 <= u2 {
            lemma_buckets_overlap_nested(all, t, m, n);
        } else {
            lemma_buckets_overlap_nested(all, t, n, m);
        }
    }
}

/// Overlapping leaf buckets, the first no coarser than the second,
/// are the same bucket.
proof fn lemma_buckets_overlap_nested(all: Seq<u32>, t: int, m: u32, n: u32)
    requires
        bucket_unit(all, t, m) <= bucket_unit(all, t, n),
        bucket_start(all, t, m) <= bucket_end(all, t, n),
        bucket_start(all, t, n) <= bucket_end(all, t, m),
    ensures
        bucket_start(all, t, m) == bucket_start(all, t, n),
        bucket_unit(all, t, m) == bucket_unit(all, t, n),
{
    let su = start_unit_spec(max_of(all));
    lemma_max_of_nonneg(all);
    lemma_start_unit_pow10(max_of(all));
    lemma_final_unit_pow10(all, t, m, su);
    lemma_final_unit_pow10(all, t, n, su);
    let u1 = bucket_unit(all, t, m);
    let s1 = bucket_start(all, t, m);
    let u2 = bucket_unit(all, t, n);
    let s2 = bucket_start(all, t, n);
    lemma_group_bounds(m as int, u1);
    lemma_group_bounds(n as int, u2);
    let x: int = if s1 >= s2 {
        s1
    } else {
        s2
    };
    assert(s1 <= x < s1 + u1);
    assert(s2 <= x < s2 + u2);
    lemma_group_same(x, m as int, u1);
    lemma_group_same(x, n as int, u2);
    lemma_refine_up(x, m as int, u1, u2);
    assert(group_of(m as int, u2) == group_of(x, u2));
    assert(group_of(x, u2) == group_of(n as int, u2));
    lemma_final_unit_agrees(all, t, m, n, su);
}

/// The number of digits of the last value in a bucket: the bucket
/// prefix digits plus the masked digits.
proof fn lemma_end_digits(p: int, ll: nat)
    requires
        p >= 1,
    ensures
        n_digits(p * (pow10(ll) as int) + pow10(ll) - 1) == n_digits(p) + ll,
{
    let u = pow10(ll) as int;
    lemma_pow10_pos(ll);
    let nd = n_digits(p);
    lemma_log10_bounds(p);
    lemma_pow10_add((nd - 1) as nat, ll);
    lemma_pow10_add(nd, ll);
    let end = p * u + u - 1;
    vstd::arithmetic::mul::lemma_mul_inequality(pow10((nd - 1) as nat) as int, p, u);
    vstd::arithmetic::mul::lemma_mul_inequality(p + 1, pow10(nd) as int, u);
    vstd::arithmetic::mul::lemma_mul_is_distributive_add_other_way(u, p, 1);
    assert(pow10((nd - 1 + ll) as nat) == pow10((nd - 1) as nat) * pow10(ll));
    assert(pow10((nd - 1) as nat) * u <= p * u);
    assert(end < (p + 1) * u);
    assert((p + 1) * u <= pow10(nd) * u);
    lemma_n_digits_between(end, nd + ll);
}

/// The shape of a folder name whose width suffices: `w` characters,
/// agreeing with the `w`-digit numeral of the bucket start except that
/// the last `log10(unit)` characters are the placeholder.
proof fn lemma_folder_shape(s: int, u: int, w: int, ph: char)
    requires
        is_pow10(u),
        u >= 10,
        s >= 0,
        s % u == 0,
        n_digits(s + u - 1) <= w,
        s >= u || w > log10(u),
    ensures
        folder_name_spec(s, u, w, ph).len() == w,
        w > log10(u),
        forall|j: int|
            0 <= j < w - log10(u) ==> #[trigger] folder_name_spec(s, u, w, ph)[j] == zp(
                s,
                w as nat,
            )[j],
        forall|j: int| w - log10(u) <= j < w ==> #[trigger] folder_name_spec(s, u, w, ph)[j] == ph,
{
    let ll = log10(u);
    let p = s / u;
    assert(u == pow10(ll));
    vstd::arithmetic::div_mod::lemma_fundamental_div_mod(s, u);
    vstd::arithmetic::mul::lemma_mul_is_commutative(u, p);
    assert(s == p * u);
    vstd::arithmetic::div_mod::lemma_div_pos_is_pos(s, u);
    let nd = n_digits(p);
    let name = folder_name_spec(s, u, w, ph);
    let base = dec_digits(p) + repeat_char(ph, ll);
    lemma_zp_len(p, nd);
    if p >= 1 {
        lemma_end_digits(p, ll);
        assert(s + u - 1 == p * u + u - 1);
        assert(w >= nd + ll);
        vstd::arithmetic::mul::lemma_mul_inequality(1, p, u);
        assert(s >= u);
        assert(w > ll);
    } else {
        assert(p == 0);
        vstd::arithmetic::mul::lemma_mul_by_zero_is_zero(u);
        assert(s == 0);
        assert(w > ll);
        assert(nd == 1);
        assert(n_digits(0 + u - 1) >= 1);
        assert(w >= nd + ll);
    }
    assert(base.len() == nd + ll);
    let padded = repeat_char('0', (w - nd - ll) as nat) + dec_digits(p) + repeat_char(ph, ll);
    if base.len() >= w {
        assert(name == base);
        assert(name =~= padded);
    } else {
        assert(name == repeat_char('0', (w - base.len()) as nat) + base);
        assert(name =~= padded);
    }
    assert(name.len() == w);
    lemma_zp_trunc(s, w as nat, ll);
    assert(s / (pow10(ll) as int) == p);
    lemma_zp_pad(p, (w - ll) as nat);
    lemma_zp_len(s, w as nat);
    lemma_zp_len(p, (w - ll) as nat);
    assert forall|j: int| 0 <= j < w - ll implies #[trigger] name[j] == zp(s, w as nat)[j] by {
        assert(zp(s, w as nat).subrange(0, w - ll)[j] == zp(s, w as nat)[j]);
        assert(zp(s, w as nat)[j] == zp(p, (w - ll) as nat)[j]);
        assert(zp(p, (w - ll) as nat)[j] == (repeat_char('0', (w - ll - nd) as nat) + dec_digits(
            p,
        ))[j]);
        if j < w - ll - nd {
            assert(name[j] == '0');
        } else {
            assert(name[j] == dec_digits(p)[j - (w - nd - ll)]);
        }
    }
    assert forall|j: int| w - ll <= j < w implies #[trigger] name[j] == ph by {
        assert(name[j] == repeat_char(ph, ll)[j - (w - ll)]);
    }
}

/// Sibling order: two identifiers whose leaf buckets are distinct get
/// folder names of the same width, and the names sort lexicographically
/// in the order of the ranges they denote.
pub proof fn lemma_sibling_order(all: Seq<u32>, t: int, ph: char, m: u32, n: u32)
    requires
        all.contains(m),
        all.contains(n),
        0 <= t < all.len(),
        bucket_end(all, t, m) < bucket_start(all, t, n),
    ensures
        structure_at(all, t, ph, m).len() == width_spec(all, t),
        structure_at(all, t, ph, n).len() == width_spec(all, t),
        lex_lt(structure_at(all, t, ph, m), structure_at(all, t, ph, n)),
{
    let su = start_unit_spec(max_of(all));
    lemma_max_of_nonneg(all);
    lemma_start_unit_pow10(max_of(all));
    lemma_final_unit_pow10(all, t, m, su);
    lemma_final_unit_pow10(all, t, n, su);
    let u1 = bucket_unit(all, t, m);
    let s1 = bucket_start(all, t, m);
    let u2 = bucket_unit(all, t, n);
    let s2 = bucket_start(all, t, n);
    let e1 = s1 + u1 - 1;
    let e2 = s2 + u2 - 1;
    let l1 = log10(u1);
    let l2 = log10(u2);
    assert(u1 == pow10(l1) && u2 == pow10(l2));
    let ww = width_spec(all, t) as int;
    lemma_group_bounds(m as int, u1);
    lemma_group_bounds(n as int, u2);
    lemma_max_end_ge(all, t, all, m);
    lemma_max_end_ge(all, t, all, n);
    lemma_log10_mono(e1, max_end(all, t, all));
    lemma_log10_mono(e2, max_end(all, t, all));
    assert(n_digits(e1) <= ww && n_digits(e2) <= ww);
    // bucket starts are multiples of their units
    assert(s1 % u1 == 0 && s2 % u2 == 0) by {
        vstd::arithmetic::div_mod::lemma_mod_multiples_basic(m as int / u1, u1);
        vstd::arithmetic::div_mod::lemma_mod_multiples_basic(n as int / u2, u2);
        vstd::arithmetic::mul::lemma_mul_is_commutative(u1, m as int / u1);
        vstd::arithmetic::mul::lemma_mul_is_commutative(u2, n as int / u2);
    }
    // the second bucket starts past the first, so it starts at its unit
    // or later, and at the first bucket's unit or later
    assert(s2 >= u1) by {
        assert(s2 > e1 && e1 >= u1 - 1);
    }
    assert(s2 >= u2) by {
        vstd::arithmetic::div_mod::lemma_div_pos_is_pos(n as int, u2);
        if n as int / u2 == 0 {
            assert(s2 == 0);
        } else {
            vstd::arithmetic::mul::lemma_mul_inequality(1, n as int / u2, u2);
        }
    }
    assert(e2 >= s2);
    // widths suffice on both sides
    lemma_log10_mono(u2, e2);
    lemma_log10_pow10(l2);
    assert(ww >= l2 + 1) by {
        assert(n_digits(u2) == l2 + 1);
        assert(n_digits(e2) >= n_digits(u2));
    }
    assert(ww > l1) by {
        if s1 >= u1 {
            lemma_log10_mono(u1, e1);
            lemma_log10_pow10(l1);
            assert(n_digits(e1) >= n_digits(u1));
        } else {
            lemma_log10_mono(u1, e2);
            lemma_log10_pow10(l1);
            assert(n_digits(e2) >= n_digits(u1));
        }
    }
    lemma_folder_shape(s1, u1, ww, ph);
    lemma_folder_shape(s2, u2, ww, ph);
    let lmax = if l1 >= l2 {
        l1
    } else {
        l2
    };
    let umax = pow10(lmax) as int;
    lemma_pow10_pos(lmax);
    let q1 = s1 / umax;
    let q2 = s2 / umax;
    vstd::arithmetic::div_mod::lemma_div_is_ordered(s1, s2, umax);
    assert(q1 <= q2);
    vstd::arithmetic::div_mod::lemma_div_pos_is_pos(s1, umax);
    assert(q1 != q2) by {
        if q1 == q2 {
            if l1 >= l2 {
                assert(umax == u1);
                assert(q1 == m as int / u1) by {
                    vstd::arithmetic::div_mod::lemma_fundamental_div_mod_converse(
                        s1,
                        u1,
                        m as int / u1,
                        0,
                    );
                }
                lemma_group_bounds(s2, u1);
                assert(group_of(s2, u1) == q2 * u1);
                assert(q2 * u1 == s1);
                assert(s1 <= s2 < s1 + u1);
            } else {
                assert(umax == u2);
                assert(q2 == n as int / u2) by {
                    vstd::arithmetic::div_mod::lemma_fundamental_div_mod_converse(
                        s2,
                        u2,
                        n as int / u2,
                        0,
                    );
                }
                lemma_group_bounds(s1, u2);
                assert(group_of(s1, u2) == q1 * u2);
                assert(q1 * u2 == s2);
                assert(s2 <= s1);
            }
        }
    }
    // both quotients fit in the shared digit prefix
    lemma_log10_bounds(e2);
    lemma_pow10_mono(n_digits(e2), ww as nat);
    assert(s2 < pow10(ww as nat));
    lemma_pow10_add(lmax, (ww - lmax) as nat);
    vstd::arithmetic::div_mod::lemma_multiply_divide_lt(
        s2,
        umax,
        pow10((ww - lmax) as nat) as int,
    );
    assert(q2 < pow10((ww - lmax) as nat));
    lemma_zp_lt(q1, q2, (ww - lmax) as nat);
    let za = zp(q1, (ww - lmax) as nat);
    let zb = zp(q2, (ww - lmax) as nat);
    lemma_zp_len(q1, (ww - lmax) as nat);
    lemma_zp_len(q2, (ww - lmax) as nat);
    let i = choose|i: int|
        0 <= i < za.len() && i < zb.len() && (forall|j: int| 0 <= j < i ==> za[j] == zb[j]) && (
        za[i] as u32) < (zb[i] as u32);
    lemma_zp_trunc(s1, ww as nat, lmax);
    lemma_zp_trunc(s2, ww as nat, lmax);
    lemma_zp_len(s1, ww as nat);
    lemma_zp_len(s2, ww as nat);
    let name1 = structure_at(all, t, ph, m);
    let name2 = structure_at(all, t, ph, n);
    assert forall|j: int| 0 <= j <= i implies name1[j] == zp(s1, ww as nat)[j] && name2[j] == zp(
        s2,
        ww as nat,
    )[j] && zp(s1, ww as nat)[j] == za[j] && zp(s2, ww as nat)[j] == zb[j] by {
        assert(zp(s1, ww as nat).subrange(0, ww - lmax)[j] == zp(s1, ww as nat)[j]);
        assert(zp(s2, ww as nat).subrange(0, ww - lmax)[j] == zp(s2, ww as nat)[j]);
    }
    assert(0 <= i < name1.len() && i < name2.len() && (forall|j: int|
        0 <= j < i ==> name1[j] == name2[j]) && (name1[i] as u32) < (name2[i] as u32));
    assert(lex_lt(name1, name2));
}

/// Identifiers assigned the same folder path sit in the same leaf
/// bucket.
pub proof fn lemma_same_path_same_bucket(all: Seq<u32>, t: int, ph: char, m: u32, n: u32)
    requires
        all.contains(m),
        all.contains(n),
        0 <= t < all.len(),
        structure_at(all, t, ph, m) == structure_at(all, t, ph, n),
    ensures
        bucket_start(all, t, m) == bucket_start(all, t, n),
        bucket_unit(all, t, m) == bucket_unit(all, t, n),
{
    lemma_buckets_disjoint(all, t, m, n);
    if bucket_end(all, t, m) < bucket_start(all, t, n) {
        lemma_sibling_order(all, t, ph, m, n);
        let name1 = structure_at(all, t, ph, m);
        let name2 = structure_at(all, t, ph, n);
        let i = choose|i: int|
            0 <= i < name1.len() && i < name2.len() && (forall|j: int|
                0 <= j < i ==> name1[j] == name2[j]) && (name1[i] as u32) < (name2[i] as u32);
        assert(name1[i] != name2[i]);
        assert(false);
    } else if bucket_end(all, t, n) < bucket_start(all, t, m) {
        lemma_sibling_order(all, t, ph, n, m);
        let name1 = structure_at(all, t, ph, n);
        let name2 = structure_at(all, t, ph, m);
        let i = choose|i: int|
            0 <= i < name1.len() && i < name2.len() && (forall|j: int|
                0 <= j < i ==> name1[j] == name2[j]) && (name1[i] as u32) < (name2[i] as u32);
        assert(name1[i] != name2[i]);
        assert(false);
    }
}

/// A leaf bucket accepted above the smallest granularity respects the
/// threshold.
proof fn lemma_final_unit_count(all: Seq<u32>, t: int, n: u32, u: int)
    requires
        is_pow10(u),
        u >= 10,
    ensures
        final_unit(all, t, n, u) > 10 ==> members_at(all, n, final_unit(all, t, n, u)).len() <= t,
    decreases u,
{
    if u <= 10 || members_at(all, n, u).len() <= t {
    } else {
        assert(pow10(0) == 1);
        assert(pow10(1) == 10 * pow10(0));
        lemma_log10_pow10(1);
        lemma_pow10_gap(10, u);
        lemma_final_unit_count(all, t, n, u / 10);
    }
}

/// The identifiers that share `n`'s folder path.
pub open spec fn path_sharers(all: Seq<u32>, t: int, ph: char, n: u32) -> Set<u32> {
    Set::new(
        |m: u32| all.contains(m) && structure_at(all, t, ph, m) == structure_at(all, t, ph, n),
    )
}

/// Threshold invariant: at most `t` identifiers share any folder path,
/// except a path at the smallest granularity, whose bucket is accepted
/// as a leaf even when oversized.
pub proof fn lemma_threshold_invariant(all: Seq<u32>, t: int, ph: char, n: u32)
    requires
        all.contains(n),
        0 <= t,
    ensures
        path_sharers(all, t, ph, n).finite(),
        all.len() <= t ==> path_sharers(all, t, ph, n).len() <= t,
        all.len() > t && bucket_unit(all, t, n) > 10 ==> path_sharers(all, t, ph, n).len() <= t,
{
    broadcast use vstd::seq_lib::seq_to_set_is_finite;

    let sharers = path_sharers(all, t, ph, n);
    if all.len() <= t {
        assert(sharers.subset_of(all.to_set()));
        all.lemma_cardinality_of_set();
        vstd::set_lib::lemma_len_subset(sharers, all.to_set());
    } else {
        let su = start_unit_spec(max_of(all));
        lemma_max_of_nonneg(all);
        lemma_start_unit_pow10(max_of(all));
        lemma_final_unit_pow10(all, t, n, su);
        let fu = bucket_unit(all, t, n);
        if fu > 10 {
            lemma_final_unit_count(all, t, n, su);
            let members = members_at(all, n, fu);
            assert forall|m: u32| sharers.contains(m) implies members.to_set().contains(m) by {
                lemma_same_path_same_bucket(all, t, ph, m, n);
                assert(group_of(m as int, fu) == group_of(n as int, fu));
                lemma_filter_mem(all, bucket_pred(fu, group_of(n as int, fu)), m);
            }
            assert(sharers.subset_of(members.to_set()));
            members.lemma_cardinality_of_set();
            vstd::set_lib::lemma_len_subset(sharers, members.to_set());
        } else {
            assert(sharers.subset_of(all.to_set()));
            all.lemma_cardinality_of_set();
            vstd::set_lib::lemma_len_subset(sharers, all.to_set());
        }
    }
}

/// No character of a folder path is a slash: a path is empty or made
/// of digits and the placeholder.
pub proof fn lemma_structure_no_slash(all: Seq<u32>, t: int, ph: char, n: u32)
    requires
        ph != '/',
    ensures
        !structure_at(all, t, ph, n).contains('/'),
{
    let name = structure_at(all, t, ph, n);
    if all.len() > t {
        lemma_max_of_nonneg(all);
        lemma_start_unit_pow10(max_of(all));
        lemma_final_unit_pow10(all, t, n, start_unit_spec(max_of(all)));
        let u = bucket_unit(all, t, n);
        let gs = bucket_start(all, t, n);
        lemma_group_bounds(n as int, u);
        let w = width_spec(all, t) as int;
        let p = gs / u;
        vstd::arithmetic::div_mod::lemma_div_pos_is_pos(gs, u);
        let nd = n_digits(p);
        lemma_zp_len(p, nd);
        crate::digits::lemma_zp_digits(p, nd);
        let base = dec_digits(p) + repeat_char(ph, log10(u));
        assert forall|j: int| 0 <= j < name.len() implies name[j] != '/' by {
            if name == base {
                if j < dec_digits(p).len() {
                    assert(crate::digits::is_digit(name[j]));
                } else {
                    assert(name[j] == ph);
                }
            } else {
                let pad = w - base.len();
                if j < pad {
                    assert(name[j] == '0');
                } else if j < pad + dec_digits(p).len() {
                    assert(name[j] == dec_digits(p)[j - pad]);
                    assert(crate::digits::is_digit(name[j]));
                } else {
                    assert(name[j] == ph);
                }
            }
        }
        if name.contains('/') {
            let j = choose|j: int| 0 <= j < name.len() && name[j] == '/';
        }
    } else {
        if name.contains('/') {
            let j = choose|j: int| 0 <= j < name.len() && name[j] == '/';
        }
    }
}

} // verus!
