//! The aggregation pipeline and the query layer.
//!
//! Input deltas are folded, round by ascending round, into per-round and
//! cumulative amount maps; each round's cumulative snapshot becomes a Merkle
//! tree; the resulting records answer root, amount and proof queries. An
//! unparsable amount counts as zero, a documented recovery policy; a
//! malformed address is rejected before aggregation starts.

use vstd::prelude::*;

use crate::api::amount_map::AmountMap;
use crate::api::amount_map::contains_addr;
use crate::api::amount_map::lemma_lookup_at;
use crate::api::field::FieldElement;
use crate::api::field::b128;
use crate::api::field::all_dec_digits;
use crate::api::field::dec_value;
use crate::api::field::is_dec_digit;
use crate::api::field::felt_from_str;
use crate::api::field::felt_to_b16;
use crate::api::field::u128_to_dec_string;
use crate::api::field::valid_field_str;
use crate::api::field::field_str_value;
use crate::api::field::dec_str_of;
use crate::api::merkle_tree::MerkleTree;
use crate::api::merkle_tree::has_leaf;
use crate::api::merkle_tree::leaf_index_of;
use crate::api::merkle_tree::lemma_leaf_index;
use crate::api::merkle_tree::sorted_leaves;
use crate::api::structs::CairoCalldata;
use crate::api::structs::CumulativeAllocation;
use crate::api::structs::JSONAllocation;
use crate::api::structs::QueryError;
use crate::api::structs::RootQueryResult;
use crate::api::structs::RoundAmountMaps;
use crate::api::structs::RoundAmounts;
use crate::api::structs::RoundTreeData;

verus! {

// ---------------------------------------------------------------------------
// What the input denotes
// ---------------------------------------------------------------------------

/// A string `str::parse::<u128>` would accept: nonempty decimal digits whose
/// value fits.
pub open spec fn valid_u128_str(s: Seq<char>) -> bool {
    s.len() > 0 && all_dec_digits(s) && dec_value(s) < b128()
}

/// The amount one delta contributes: its parsed value, zero when unparsable.
pub open spec fn parsed_amount(a: JSONAllocation) -> u128 {
    if valid_u128_str(a.amount@) {
        dec_value(a.amount@) as u128
    } else {
        0
    }
}

/// The field value of one delta's address.
pub open spec fn delta_addr(a: JSONAllocation) -> int {
    field_str_value(a.address@)
}

/// Every address string in every round denotes a canonical field element.
pub open spec fn rounds_addrs_valid(rs: Seq<RoundAmounts>) -> bool {
    forall|i: int, j: int|
        0 <= i < rs.len() && 0 <= j < rs[i].amounts@.len()
            ==> valid_field_str((#[trigger] rs[i].amounts@[j]).address@)
}

/// The sum of all parsed amounts of one round.
pub open spec fn round_sum(s: Seq<JSONAllocation>) -> int
    decreases s.len(),
{
    if s.len() == 0 {
        0
    } else {
        round_sum(s.drop_last()) + parsed_amount(s.last())
    }
}

/// The sum one address receives within one round.
pub open spec fn addr_sum(s: Seq<JSONAllocation>, a: int) -> int
    decreases s.len(),
{
    if s.len() == 0 {
        0
    } else {
        addr_sum(s.drop_last(), a) + if delta_addr(s.last()) == a {
            parsed_amount(s.last()) as int
        } else {
            0
        }
    }
}

/// The sum of all amounts across the first `n` rounds.
pub open spec fn total_sum(rs: Seq<RoundAmounts>, n: int) -> int
    decreases n,
{
    if n <= 0 {
        0
    } else {
        total_sum(rs, n - 1) + round_sum(rs[n - 1].amounts@)
    }
}

/// The sum one address receives across the first `n` rounds.
pub open spec fn cum_addr_sum(rs: Seq<RoundAmounts>, n: int, a: int) -> int
    decreases n,
{
    if n <= 0 {
        0
    } else {
        cum_addr_sum(rs, n - 1, a) + addr_sum(rs[n - 1].amounts@, a)
    }
}

/// Whether an address occurs among one round's deltas.
pub open spec fn appears(s: Seq<JSONAllocation>, a: int) -> bool {
    exists|i: int| 0 <= i < s.len() && delta_addr(#[trigger] s[i]) == a
}

/// Whether an address occurs in any of the first `n` rounds.
pub open spec fn appears_upto(rs: Seq<RoundAmounts>, n: int, a: int) -> bool {
    exists|i: int| 0 <= i < n && i < rs.len() && appears((#[trigger] rs[i]).amounts@, a)
}

/// Rounds in ascending round-number order.
pub open spec fn sorted_by_round(rs: Seq<RoundAmounts>) -> bool {
    forall|i: int, j: int|
        0 <= i < j < rs.len() ==> (#[trigger] rs[i]).round <= (#[trigger] rs[j]).round
}

/// How many rounds at the front carry no delta at all; their snapshots are
/// empty and produce no output record.
pub open spec fn num_skipped(rs: Seq<RoundAmounts>) -> int
    decreases rs.len(),
{
    if rs.len() == 0 {
        0
    } else if rs[0].amounts@.len() > 0 {
        0
    } else {
        1 + num_skipped(rs.skip(1))
    }
}

/// The cumulative amount a round's tree stores for an address, zero if the
/// address has no leaf.
pub open spec fn leaf_amount(s: Seq<CumulativeAllocation>, a: int) -> u128 {
    if has_leaf(s, a) {
        s[leaf_index_of(s, a)].cumulative_amount
    } else {
        0
    }
}

// ---------------------------------------------------------------------------
// Arithmetic facts about the sums
// ---------------------------------------------------------------------------

pub proof fn lemma_dec_nonneg(s: Seq<char>)
    requires
        all_dec_digits(s),
    ensures
        dec_value(s) >= 0,
    decreases s.len(),
{
    if s.len() > 0 {
        assert(all_dec_digits(s.drop_last()));
        lemma_dec_nonneg(s.drop_last());
    }
}

pub proof fn lemma_dec_take_step(s: Seq<char>, j: int)
    requires
        0 <= j < s.len(),
    ensures
        dec_value(s.take(j + 1)) == 10 * dec_value(s.take(j)) + (s[j] as int - 48),
{
    assert(s.take(j + 1).drop_last() =~= s.take(j));
    assert(s.take(j + 1).last() == s[j]);
}

pub proof fn lemma_dec_take_le(s: Seq<char>, j: int)
    requires
        all_dec_digits(s),
        0 <= j <= s.len(),
    ensures
        dec_value(s.take(j)) <= dec_value(s),
    decreases s.len() - j,
{
    if j == s.len() {
        assert(s.take(j) =~= s);
    } else {
        lemma_dec_take_step(s, j);
        assert(all_dec_digits(s.take(j)));
        lemma_dec_nonneg(s.take(j));
        lemma_dec_take_le(s, j + 1);
    }
}

pub proof fn lemma_round_sum_take_step(s: Seq<JSONAllocation>, j: int)
    requires
        0 <= j < s.len(),
    ensures
        round_sum(s.take(j + 1)) == round_sum(s.take(j)) + parsed_amount(s[j]),
{
    assert(s.take(j + 1).drop_last() =~= s.take(j));
    assert(s.take(j + 1).last() == s[j]);
}

pub proof fn lemma_addr_sum_take_step(s: Seq<JSONAllocation>, j: int, a: int)
    requires
        0 <= j < s.len(),
    ensures
        addr_sum(s.take(j + 1), a) == addr_sum(s.take(j), a) + if delta_addr(s[j]) == a {
            parsed_amount(s[j]) as int
        } else {
            0
        },
{
    assert(s.take(j + 1).drop_last() =~= s.take(j));
    assert(s.take(j + 1).last() == s[j]);
}

/// An address's share of a round is between zero and the round's sum.
pub proof fn lemma_addr_sum_le_round_sum(s: Seq<JSONAllocation>, a: int)
    ensures
        0 <= addr_sum(s, a),
        addr_sum(s, a) <= round_sum(s),
    decreases s.len(),
{
    if s.len() > 0 {
        lemma_addr_sum_le_round_sum(s.drop_last(), a);
    }
}

pub proof fn lemma_round_sum_nonneg(s: Seq<JSONAllocation>)
    ensures
        round_sum(s) >= 0,
    decreases s.len(),
{
    if s.len() > 0 {
        lemma_round_sum_nonneg(s.drop_last());
    }
}

pub proof fn lemma_round_sum_take_le(s: Seq<JSONAllocation>, j: int)
    requires
        0 <= j <= s.len(),
    ensures
        0 <= round_sum(s.take(j)),
        round_sum(s.take(j)) <= round_sum(s),
    decreases s.len() - j,
{
    lemma_round_sum_nonneg(s.take(j));
    if j == s.len() {
        assert(s.take(j) =~= s);
    } else {
        lemma_round_sum_take_step(s, j);
        lemma_round_sum_nonneg(s.take(j + 1));
        lemma_round_sum_take_le(s, j + 1);
        assert(parsed_amount(s[j]) >= 0);
    }
}

/// Totals grow with the number of rounds and never fall below zero.
pub proof fn lemma_total_monotone(rs: Seq<RoundAmounts>, n1: int, n2: int)
    requires
        n1 <= n2,
    ensures
        total_sum(rs, n1) <= total_sum(rs, n2),
        0 <= n1 ==> 0 <= total_sum(rs, n1),
    decreases n2 - n1,
{
    if n1 < n2 {
        lemma_total_monotone(rs, n1, n2 - 1);
        if n2 >= 1 {
            lemma_round_sum_nonneg(rs[n2 - 1].amounts@);
        }
    } else if n1 >= 0 {
        lemma_total_monotone_nonneg(rs, n1);
    }
}

proof fn lemma_total_monotone_nonneg(rs: Seq<RoundAmounts>, n: int)
    ensures
        n >= 0 ==> total_sum(rs, n) >= 0,
    decreases n,
{
    if n > 0 {
        lemma_total_monotone_nonneg(rs, n - 1);
        lemma_round_sum_nonneg(rs[n - 1].amounts@);
    }
}

/// One address's cumulative share never exceeds the running total.
pub proof fn lemma_cum_le_total(rs: Seq<RoundAmounts>, n: int, a: int)
    ensures
        0 <= n ==> 0 <= cum_addr_sum(rs, n, a) && cum_addr_sum(rs, n, a) <= total_sum(rs, n),
    decreases n,
{
    if n > 0 {
        lemma_cum_le_total(rs, n - 1, a);
        lemma_addr_sum_le_round_sum(rs[n - 1].amounts@, a);
        lemma_round_sum_nonneg(rs[n - 1].amounts@);
    }
}

/// Cumulative amounts never decrease as rounds advance.
pub proof fn lemma_cum_monotone(rs: Seq<RoundAmounts>, n1: int, n2: int, a: int)
    requires
        0 <= n1 <= n2,
    ensures
        cum_addr_sum(rs, n1, a) <= cum_addr_sum(rs, n2, a),
    decreases n2 - n1,
{
    if n1 < n2 {
        lemma_cum_monotone(rs, n1, n2 - 1, a);
        lemma_addr_sum_le_round_sum(rs[n2 - 1].amounts@, a);
    }
}

pub proof fn lemma_num_skipped_facts(rs: Seq<RoundAmounts>)
    ensures
        0 <= num_skipped(rs) <= rs.len(),
        forall|j: int| 0 <= j < num_skipped(rs) ==> (#[trigger] rs[j]).amounts@.len() == 0,
        num_skipped(rs) < rs.len() ==> rs[num_skipped(rs)].amounts@.len() > 0,
    decreases rs.len(),
{
    if rs.len() > 0 && rs[0].amounts@.len() == 0 {
        lemma_num_skipped_facts(rs.skip(1));
        assert forall|j: int| 0 <= j < num_skipped(rs) implies
            (#[trigger] rs[j]).amounts@.len() == 0 by {
            if j > 0 {
                assert(rs.skip(1)[j - 1] == rs[j]);
            }
        }
        if num_skipped(rs) < rs.len() {
            assert(rs.skip(1)[num_skipped(rs) - 1] == rs[num_skipped(rs)]);
        }
    }
}

// ---------------------------------------------------------------------------
// Verified parsers
// ---------------------------------------------------------------------------

/// Parse a base-10 `u128`, exactly as strict as the standard parser: some
/// digits, nothing else, value in range.
pub fn parse_u128(s: &str) -> (r: Option<u128>)
    ensures
        r is Some <==> valid_u128_str(s@),
        r is Some ==> r->0 == dec_value(s@),
{
    let n = s.unicode_len();
    if n == 0 {
        return None;
    }
    let mut acc: u128 = 0;
    let mut i: usize = 0;
    while i < n
        invariant
            n == s@.len(),
            0 <= i <= n,
            all_dec_digits(s@.take(i as int)),
            acc == dec_value(s@.take(i as int)),
        decreases n - i,
    {
        let c = s.get_char(i);
        let u = c as u32;
        if u < 48 || u > 57 {
            proof {
                assert(!is_dec_digit(s@[i as int]));
                assert(!all_dec_digits(s@));
            }
            return None;
        }
        proof {
            assert forall|q: int| 0 <= q < i + 1 implies is_dec_digit(
                #[trigger] s@.take(i + 1 as int)[q]) by {
                if q < i {
                    assert(is_dec_digit(s@.take(i as int)[q]));
                }
            }
            assert(all_dec_digits(s@.take(i + 1 as int)));
            lemma_dec_take_step(s@, i as int);
        }
        let d = (u - 48) as u128;
        let m = match acc.checked_mul(10) {
            Some(v) => v,
            None => {
                proof {
                    lemma_overflow_invalid(s@, i as int);
                }
                return None;
            },
        };
        let a2 = match m.checked_add(d) {
            Some(v) => v,
            None => {
                proof {
                    lemma_overflow_invalid(s@, i as int);
                }
                return None;
            },
        };
        acc = a2;
        i += 1;
    }
    proof {
        assert(s@.take(n as int) =~= s@);
    }
    Some(acc)
}

/// If the value through digit `i` already exceeds the range, the string is
/// not a valid `u128`.
proof fn lemma_overflow_invalid(s: Seq<char>, i: int)
    requires
        0 <= i < s.len(),
        all_dec_digits(s.take(i + 1)),
        dec_value(s.take(i + 1)) > u128::MAX,
    ensures
        !valid_u128_str(s),
{
    if all_dec_digits(s) {
        lemma_dec_take_le(s, i + 1);
    } else {
        assert(!valid_u128_str(s));
    }
}

/// Case-blind match of one character against a lower-case letter.
pub open spec fn matches_ci(c: char, lower: char) -> bool {
    c == lower || c as int + 32 == lower as int
}

/// The accepted input file names: `raw_<digits>.zip`, case-insensitively.
pub open spec fn is_raw_zip_name(s: Seq<char>) -> bool {
    &&& s.len() >= 9
    &&& matches_ci(s[0], 'r')
    &&& matches_ci(s[1], 'a')
    &&& matches_ci(s[2], 'w')
    &&& s[3] == '_'
    &&& forall|i: int| 4 <= i < s.len() - 4 ==> is_dec_digit(#[trigger] s[i])
    &&& s[s.len() - 4] == '.'
    &&& matches_ci(s[s.len() - 3], 'z')
    &&& matches_ci(s[s.len() - 2], 'i')
    &&& matches_ci(s[s.len() - 1], 'p')
}

/// The round number a file name carries.
pub open spec fn filename_round(s: Seq<char>) -> int {
    dec_value(s.subrange(4, s.len() - 4))
}

/// A valid input file name: the pattern, and a round in `1..=255`. Round
/// zero is excluded however it is spelt, and so is a number too large for a
/// round; neither names a round this system can serve.
pub open spec fn valid_input_filename(s: Seq<char>) -> bool {
    is_raw_zip_name(s) && 1 <= filename_round(s) <= 255
}

/// Extract the round number from a file name, if the name is valid.
pub fn parse_round_filename(name: &str) -> (r: Option<u8>)
    ensures
        r is Some <==> valid_input_filename(name@),
        r is Some ==> r->0 as int == filename_round(name@),
{
    let n = name.unicode_len();
    if n < 9 {
        return None;
    }
    let c0 = name.get_char(0);
    let c1 = name.get_char(1);
    let c2 = name.get_char(2);
    let c3 = name.get_char(3);
    if !((c0 == 'r' || c0 == 'R') && (c1 == 'a' || c1 == 'A') && (c2 == 'w' || c2 == 'W')
        && c3 == '_') {
        return None;
    }
    let d0 = name.get_char(n - 4);
    let d1 = name.get_char(n - 3);
    let d2 = name.get_char(n - 2);
    let d3 = name.get_char(n - 1);
    if !(d0 == '.' && (d1 == 'z' || d1 == 'Z') && (d2 == 'i' || d2 == 'I') && (d3 == 'p' || d3
        == 'P')) {
        return None;
    }
    let ghost region = name@.subrange(4, n - 4 as int);
    let mut acc: u32 = 0;
    let mut j: usize = 4;
    while j < n - 4
        invariant
            n == name@.len(),
            9 <= n,
            4 <= j <= n - 4,
            region == name@.subrange(4, n - 4 as int),
            all_dec_digits(region.take(j - 4 as int)),
            acc == dec_value(region.take(j - 4 as int)),
            acc <= 255,
        decreases n - 4 - j,
    {
        let c = name.get_char(j);
        let u = c as u32;
        if u < 48 || u > 57 {
            proof {
                assert(region[j - 4 as int] == name@[j as int]);
                assert(!is_dec_digit(name@[j as int]));
            }
            return None;
        }
        proof {
            assert(region[j - 4 as int] == name@[j as int]);
            assert forall|q: int| 0 <= q < j - 4 + 1 implies is_dec_digit(
                #[trigger] region.take(j - 4 + 1 as int)[q]) by {
                if q < j - 4 {
                    assert(is_dec_digit(region.take(j - 4 as int)[q]));
                }
            }
            assert(all_dec_digits(region.take(j - 4 + 1 as int)));
            lemma_dec_take_step(region, j - 4 as int);
        }
        acc = acc * 10 + (u - 48);
        if acc > 255 {
            proof {
                lemma_round_too_big(name@, region, j - 4 + 1 as int);
            }
            return None;
        }
        j += 1;
    }
    proof {
        assert(region.take(n - 4 - 4 as int) =~= region);
    }
    if acc == 0 {
        return None;
    }
    proof {
        assert forall|i2: int| 4 <= i2 < n - 4 implies is_dec_digit(#[trigger] name@[i2]) by {
            assert(region[i2 - 4] == name@[i2]);
        }
        assert(is_raw_zip_name(name@));
        assert(filename_round(name@) == acc);
    }
    Some(acc as u8)
}

/// A digit prefix already beyond 255 rules the name out, whatever follows.
proof fn lemma_round_too_big(s: Seq<char>, region: Seq<char>, j: int)
    requires
        region == s.subrange(4, s.len() - 4),
        s.len() >= 9,
        0 <= j <= region.len(),
        all_dec_digits(region.take(j)),
        dec_value(region.take(j)) > 255,
    ensures
        !valid_input_filename(s),
{
    if is_raw_zip_name(s) {
        assert(all_dec_digits(region)) by {
            assert(forall|q: int| 0 <= q < region.len() ==> #[trigger] region[q] == s[q + 4]);
        }
        lemma_dec_take_le(region, j);
    }
}

// ---------------------------------------------------------------------------
// Sorting rounds
// ---------------------------------------------------------------------------

/// Stable insertion of one round into a sorted prefix: it lands after every
/// round number not greater than its own.
pub open spec fn insert_sorted(t: Seq<RoundAmounts>, x: RoundAmounts) -> Seq<RoundAmounts>
    decreases t.len(),
{
    if t.len() == 0 {
        seq![x]
    } else if t.last().round <= x.round {
        t.push(x)
    } else {
        insert_sorted(t.drop_last(), x).push(t.last())
    }
}

/// The sorted order of the input rounds, first element inserted first.
pub open spec fn sort_spec(s: Seq<RoundAmounts>) -> Seq<RoundAmounts>
    decreases s.len(),
{
    if s.len() == 0 {
        Seq::empty()
    } else {
        insert_sorted(sort_spec(s.drop_last()), s.last())
    }
}

/// Where the stable insertion lands: the first position whose round number
/// exceeds the inserted one.
proof fn lemma_insert_sorted_at(t: Seq<RoundAmounts>, x: RoundAmounts, pos: int)
    requires
        0 <= pos <= t.len(),
        forall|j: int| 0 <= j < pos ==> (#[trigger] t[j]).round <= x.round,
        forall|j: int| pos <= j < t.len() ==> (#[trigger] t[j]).round > x.round,
    ensures
        insert_sorted(t, x) =~= t.insert(pos, x),
    decreases t.len(),
{
    if t.len() == 0 {
        assert(insert_sorted(t, x) =~= t.insert(0, x));
    } else if t.last().round <= x.round {
        assert(pos == t.len());
        assert(t.push(x) =~= t.insert(t.len() as int, x));
    } else {
        assert(pos < t.len());
        let dl = t.drop_last();
        assert(forall|j: int| 0 <= j < pos ==> (#[trigger] dl[j]).round <= x.round);
        assert(forall|j: int| pos <= j < dl.len() ==> (#[trigger] dl[j]).round > x.round);
        lemma_insert_sorted_at(dl, x, pos);
        assert(insert_sorted(dl, x).push(t.last()) =~= t.insert(pos, x));
    }
}

/// Totals depend only on the rounds counted.
proof fn lemma_total_prefix(t: Seq<RoundAmounts>, u: Seq<RoundAmounts>, n: int)
    requires
        n <= t.len(),
        n <= u.len(),
        forall|k: int| 0 <= k < n ==> #[trigger] t[k] == u[k],
    ensures
        total_sum(t, n) == total_sum(u, n),
    decreases n,
{
    if n > 0 {
        lemma_total_prefix(t, u, n - 1);
    }
}

/// Inserting one round adds exactly that round's sum to the total.
proof fn lemma_total_sum_insert(t: Seq<RoundAmounts>, pos: int, x: RoundAmounts)
    requires
        0 <= pos <= t.len(),
    ensures
        total_sum(t.insert(pos, x), t.len() as int + 1) == total_sum(t, t.len() as int) + round_sum(
            x.amounts@),
    decreases t.len(),
{
    let u = t.insert(pos, x);
    let n = t.len() as int;
    assert(total_sum(u, n + 1) == total_sum(u, n) + round_sum(u[n].amounts@));
    if pos == t.len() {
        assert(u[n] == x);
        assert(forall|k: int| 0 <= k < n ==> #[trigger] u[k] == t[k]);
        lemma_total_prefix(u, t, n);
    } else {
        let dl = t.drop_last();
        let v = dl.insert(pos, x);
        lemma_total_sum_insert(dl, pos, x);
        assert(forall|k: int| 0 <= k < n ==> #[trigger] u[k] == v[k]);
        lemma_total_prefix(u, v, n);
        lemma_total_prefix(dl, t, n - 1);
        assert(u[n] == t.last());
        assert(total_sum(t, n) == total_sum(t, n - 1) + round_sum(t[n - 1].amounts@));
        assert(total_sum(v, n) == total_sum(dl, n - 1) + round_sum(x.amounts@));
    }
}

/// Sort the rounds ascending by round number, stably.
pub fn sort_round_amounts(rounds: Vec<RoundAmounts>) -> (r: Vec<RoundAmounts>)
    ensures
        r@ == sort_spec(rounds@),
        sorted_by_round(r@),
        r@.len() == rounds@.len(),
        total_sum(r@, r@.len() as int) == total_sum(rounds@, rounds@.len() as int),
        rounds_addrs_valid(rounds@) ==> rounds_addrs_valid(r@),
{
    let ghost input = rounds@;
    let len0 = rounds.len();
    let mut src = rounds;
    let mut out: Vec<RoundAmounts> = Vec::new();
    let ghost n = input.len();
    proof {
        assert(n == len0);
    }
    let mut i: usize = 0;
    proof {
        assert(input.take(0) =~= Seq::<RoundAmounts>::empty());
        assert(input.skip(0) =~= input);
    }
    while src.len() > 0
        invariant
            0 <= i <= n,
            n == input.len(),
            n <= usize::MAX,
            i == n - src@.len(),
            src@ == input.skip(i as int),
            out@ == sort_spec(input.take(i as int)),
            sorted_by_round(out@),
            out@.len() == i,
            total_sum(out@, i as int) == total_sum(input.take(i as int), i as int),
            rounds_addrs_valid(input) ==> rounds_addrs_valid(out@),
        decreases src@.len(),
    {
        let ghost prev = out@;
        let x = src.remove(0);
        proof {
            assert(x == input[i as int]);
            assert(src@ =~= input.skip(i + 1 as int));
        }
        let mut pos: usize = 0;
        while pos < out.len() && out[pos].round <= x.round
            invariant
                out@ == prev,
                0 <= pos <= prev.len(),
                forall|j: int| 0 <= j < pos ==> (#[trigger] prev[j]).round <= x.round,
                sorted_by_round(prev),
            decreases prev.len() - pos,
        {
            pos += 1;
        }
        proof {
            assert(forall|j: int| pos <= j < prev.len() ==> (#[trigger] prev[j]).round
                > x.round) by {
                if pos < prev.len() {
                    assert(prev[pos as int].round > x.round);
                }
            }
        }
        out.insert(pos, x);
        proof {
            lemma_insert_sorted_at(prev, x, pos as int);
            assert(input.take(i + 1 as int).drop_last() =~= input.take(i as int));
            assert(input.take(i + 1 as int).last() == input[i as int]);
            assert(out@ == insert_sorted(prev, x));
            assert(out@ == sort_spec(input.take(i + 1 as int)));
            // order
            assert forall|p: int, q: int| 0 <= p < q < out@.len() implies
                (#[trigger] out@[p]).round <= (#[trigger] out@[q]).round by {
                let pi = pos as int;
                if p < pi && q > pi {
                    assert(out@[p] == prev[p] && out@[q] == prev[q - 1]);
                }
            }
            // totals
            lemma_total_sum_insert(prev, pos as int, x);
            assert(total_sum(input.take(i + 1 as int), i + 1) == total_sum(input.take(i as int),
                i as int) + round_sum(input[i as int].amounts@)) by {
                lemma_total_prefix(input.take(i + 1 as int), input.take(i as int), i as int);
                assert(total_sum(input.take(i + 1 as int), i + 1) == total_sum(
                    input.take(i + 1 as int), i as int) + round_sum(
                    input.take(i + 1 as int)[i as int].amounts@));
            }
            // addresses
            if rounds_addrs_valid(input) {
                assert forall|p: int, q: int|
                    0 <= p < out@.len() && 0 <= q < out@[p].amounts@.len() implies
                    valid_field_str((#[trigger] out@[p].amounts@[q]).address@) by {
                    let pi = pos as int;
                    if p < pi {
                        assert(out@[p] == prev[p]);
                    } else if p == pi {
                        assert(out@[p] == x);
                        assert(x.amounts@[q] == input[i as int].amounts@[q]);
                    } else {
                        assert(out@[p] == prev[p - 1]);
                    }
                }
            }
        }
        i += 1;
    }
    proof {
        assert(input.take(n as int) =~= input);
    }
    out
}

/// An already sorted input is its own sorted order.
pub proof fn lemma_sort_spec_id(s: Seq<RoundAmounts>)
    requires
        sorted_by_round(s),
    ensures
        sort_spec(s) == s,
    decreases s.len(),
{
    if s.len() > 0 {
        let dl = s.drop_last();
        assert(sorted_by_round(dl));
        lemma_sort_spec_id(dl);
        if dl.len() == 0 {
            assert(insert_sorted(dl, s.last()) =~= s);
        } else {
            assert(dl.last().round <= s.last().round);
            assert(insert_sorted(dl, s.last()) =~= s);
        }
    } else {
        assert(sort_spec(s) =~= s);
    }
}

// ---------------------------------------------------------------------------
// Cumulative aggregation
// ---------------------------------------------------------------------------

/// Fold the rounds, in the order given, into one delta map per round and the
/// running cumulative map through that round. Strictly sequential: each
/// round's cumulative map extends all earlier ones. The caller orders rounds
/// ascending; amounts that do not parse count as zero.
#[verifier::loop_isolation(false)]
pub fn map_cumulative_amounts(allocations: Vec<RoundAmounts>) -> (r: Vec<RoundAmountMaps>)
    requires
        rounds_addrs_valid(allocations@),
        total_sum(allocations@, allocations@.len() as int) < b128(),
    ensures
        r@.len() == allocations@.len(),
        forall|i: int| 0 <= i < r@.len() ==> (#[trigger] r@[i]).round == allocations@[i].round,
        forall|i: int| 0 <= i < r@.len() ==> (#[trigger] r@[i]).round_amounts.wf()
            && r@[i].cumulative_amounts.wf(),
        forall|i: int, a: int| 0 <= i < r@.len()
            ==> (#[trigger] r@[i].round_amounts.spec_get(a))
                == addr_sum(allocations@[i].amounts@, a),
        forall|i: int, a: int| 0 <= i < r@.len()
            ==> ((#[trigger] r@[i].round_amounts.spec_contains(a))
                <==> appears(allocations@[i].amounts@, a)),
        forall|i: int, a: int| 0 <= i < r@.len()
            ==> (#[trigger] r@[i].cumulative_amounts.spec_get(a))
                == cum_addr_sum(allocations@, i + 1, a),
        forall|i: int, a: int| 0 <= i < r@.len()
            ==> ((#[trigger] r@[i].cumulative_amounts.spec_contains(a))
                <==> appears_upto(allocations@, i + 1, a)),
        forall|i: int| 0 <= i < r@.len() ==> (#[trigger] r@[i]).round_amounts.spec_sum()
            == round_sum(allocations@[i].amounts@),
{
    let ghost rs = allocations@;
    let n = allocations.len();
    let mut cums = AmountMap::new();
    let mut out: Vec<RoundAmountMaps> = Vec::new();
    let mut i: usize = 0;
    while i < n
        invariant
            0 <= i <= n,
            out@.len() == i,
            cums.wf(),
            forall|a: int| #[trigger] cums.spec_get(a) == cum_addr_sum(rs, i as int, a),
            forall|a: int| #[trigger] cums.spec_contains(a) <==> appears_upto(rs, i as int, a),
            forall|k: int| 0 <= k < i ==> (#[trigger] out@[k]).round == rs[k].round,
            forall|k: int| 0 <= k < i ==> (#[trigger] out@[k]).round_amounts.wf()
                && out@[k].cumulative_amounts.wf(),
            forall|k: int, a: int| 0 <= k < i ==> (#[trigger] out@[k].round_amounts.spec_get(a))
                == addr_sum(rs[k].amounts@, a),
            forall|k: int, a: int| 0 <= k < i
                ==> ((#[trigger] out@[k].round_amounts.spec_contains(a))
                    <==> appears(rs[k].amounts@, a)),
            forall|k: int, a: int| 0 <= k < i
                ==> (#[trigger] out@[k].cumulative_amounts.spec_get(a))
                    == cum_addr_sum(rs, k + 1, a),
            forall|k: int, a: int| 0 <= k < i
                ==> ((#[trigger] out@[k].cumulative_amounts.spec_contains(a))
                    <==> appears_upto(rs, k + 1, a)),
            forall|k: int| 0 <= k < i ==> (#[trigger] out@[k]).round_amounts.spec_sum()
                == round_sum(rs[k].amounts@),
        decreases n - i,
    {
        let mut curr = AmountMap::new();
        let m = allocations[i].amounts.len();
        let ghost am = rs[i as int].amounts@;
        let mut j: usize = 0;
        proof {
            assert(am.take(0) =~= Seq::<JSONAllocation>::empty());
        }
        while j < m
            invariant
                0 <= j <= m,
                curr.wf(),
                cums.wf(),
                forall|a: int| #[trigger] curr.spec_get(a) == addr_sum(am.take(j as int), a),
                forall|a: int| #[trigger] curr.spec_contains(a) <==> appears(
                    am.take(j as int), a),
                curr.spec_sum() == round_sum(am.take(j as int)),
                forall|a: int| #[trigger] cums.spec_get(a) == cum_addr_sum(rs, i as int, a)
                    + addr_sum(am.take(j as int), a),
                forall|a: int| #[trigger] cums.spec_contains(a) <==> (appears_upto(
                    rs, i as int, a) || appears(am.take(j as int), a)),
            decreases m - j,
        {
            let amount = match parse_u128(allocations[i].amounts[j].amount.as_str()) {
                Some(v) => v,
                None => 0,
            };
            proof {
                assert(amount == parsed_amount(am[j as int]));
            }
            let field = match felt_from_str(allocations[i].amounts[j].address.as_str()) {
                Some(f) => f,
                None => {
                    proof {
                        assert(valid_field_str(am[j as int].address@));
                        assert(false);
                    }
                    FieldElement::from_u128(0)
                },
            };
            proof {
                assert(field@ == delta_addr(am[j as int]));
                assert(field.wf());
                let a0 = field@;
                lemma_addr_sum_le_round_sum(am.take(j as int), a0);
                lemma_round_sum_take_step(am, j as int);
                lemma_round_sum_take_le(am, j + 1 as int);
                lemma_cum_le_total(rs, i as int, a0);
                lemma_total_monotone(rs, i + 1 as int, n as int);
                assert(total_sum(rs, i + 1 as int) == total_sum(rs, i as int) + round_sum(am));
                assert(curr.spec_get(a0) + amount < b128());
                assert(cums.spec_get(a0) + amount < b128());
            }
            curr.upsert_add(field, amount);
            cums.upsert_add(field, amount);
            proof {
                let jj = j as int;
                assert(am.take(jj + 1)[jj] == am[jj]);
                assert forall|a: int| #[trigger] curr.spec_get(a) == addr_sum(
                    am.take(jj + 1), a) by {
                    lemma_addr_sum_take_step(am, jj, a);
                }
                assert forall|a: int| #[trigger] cums.spec_get(a) == cum_addr_sum(rs, i as int, a)
                    + addr_sum(am.take(jj + 1), a) by {
                    lemma_addr_sum_take_step(am, jj, a);
                }
                lemma_round_sum_take_step(am, jj);
                assert forall|a: int| #[trigger] curr.spec_contains(a) <==> appears(
                    am.take(jj + 1), a) by {
                    if appears(am.take(jj), a) {
                        let w = choose|w: int| 0 <= w < jj && delta_addr(#[trigger] am.take(jj)[w]) == a;
                        assert(delta_addr(am.take(jj + 1)[w]) == a);
                    }
                    if delta_addr(am[jj]) == a {
                        assert(delta_addr(am.take(jj + 1)[jj]) == a);
                    }
                    if appears(am.take(jj + 1), a) {
                        let w = choose|w: int|
                            0 <= w < jj + 1 && delta_addr(#[trigger] am.take(jj + 1)[w]) == a;
                        if w < jj {
                            assert(delta_addr(am.take(jj)[w]) == a);
                        }
                    }
                }
                assert forall|a: int| #[trigger] cums.spec_contains(a) <==> (appears_upto(
                    rs, i as int, a) || appears(am.take(jj + 1), a)) by {
                    if appears(am.take(jj), a) {
                        let w = choose|w: int| 0 <= w < jj && delta_addr(#[trigger] am.take(jj)[w]) == a;
                        assert(delta_addr(am.take(jj + 1)[w]) == a);
                    }
                    if delta_addr(am[jj]) == a {
                        assert(delta_addr(am.take(jj + 1)[jj]) == a);
                    }
                    if appears(am.take(jj + 1), a) {
                        let w = choose|w: int|
                            0 <= w < jj + 1 && delta_addr(#[trigger] am.take(jj + 1)[w]) == a;
                        if w < jj {
                            assert(delta_addr(am.take(jj)[w]) == a);
                        }
                    }
                }
            }
            j += 1;
        }
        proof {
            assert(am.take(m as int) =~= am);
        }
        let cums_copy = cums.duplicate();
        let rmap = RoundAmountMaps {
            round: allocations[i].round,
            round_amounts: curr,
            cumulative_amounts: cums_copy,
        };
        let ghost prev_out = out@;
        out.push(rmap);
        proof {
            let ii = i as int;
            assert forall|a: int| #[trigger] cums.spec_get(a) == cum_addr_sum(
                rs, ii + 1, a) by {
                assert(cum_addr_sum(rs, ii + 1, a) == cum_addr_sum(rs, ii, a) + addr_sum(
                    rs[ii].amounts@, a));
            }
            assert forall|a: int| #[trigger] cums.spec_contains(a) <==> appears_upto(
                rs, ii + 1, a) by {
                if appears_upto(rs, ii, a) {
                    let w = choose|w: int|
                        0 <= w < ii && w < rs.len() && appears((#[trigger] rs[w]).amounts@, a);
                    assert(0 <= w < ii + 1 && appears(rs[w].amounts@, a));
                }
                if appears(rs[ii].amounts@, a) {
                    assert(0 <= ii < ii + 1 && appears(rs[ii].amounts@, a));
                }
                if appears_upto(rs, ii + 1, a) {
                    let w = choose|w: int|
                        0 <= w < ii + 1 && w < rs.len() && appears((#[trigger] rs[w]).amounts@, a);
                    if w < ii {
                        assert(appears_upto(rs, ii, a));
                    }
                }
            }
            assert(out@[ii] == rmap);
            assert(rmap.cumulative_amounts.entries@ == cums.entries@);
            assert forall|k: int, a: int| 0 <= k < ii + 1 implies
                (#[trigger] out@[k].cumulative_amounts.spec_get(a))
                    == cum_addr_sum(rs, k + 1, a) by {
                if k < ii {
                    assert(out@[k] == prev_out[k]);
                    assert(prev_out[k].cumulative_amounts.spec_get(a) == cum_addr_sum(
                        rs, k + 1, a));
                } else {
                    assert(out@[k].cumulative_amounts.entries@ == cums.entries@);
                    assert(cums.spec_get(a) == cum_addr_sum(rs, k + 1, a));
                }
            }
            assert forall|k: int, a: int| 0 <= k < ii + 1 implies
                ((#[trigger] out@[k].cumulative_amounts.spec_contains(a))
                    <==> appears_upto(rs, k + 1, a)) by {
                if k < ii {
                    assert(out@[k] == prev_out[k]);
                    assert(prev_out[k].cumulative_amounts.spec_contains(a) <==> appears_upto(
                        rs, k + 1, a));
                } else {
                    assert(out@[k].cumulative_amounts.entries@ == cums.entries@);
                    assert(cums.spec_contains(a) <==> appears_upto(rs, k + 1, a));
                }
            }
        }
        i += 1;
    }
    out
}

// ---------------------------------------------------------------------------
// From snapshots to cached round records
// ---------------------------------------------------------------------------

/// What the output of the pipeline satisfies, relative to its
/// round-ascending input: one record per round from the first round with any
/// delta onward, each holding that round's tree over the cumulative
/// snapshot, the round's own total, and the running total.
pub open spec fn cumulative_rounds_ok(ss: Seq<RoundAmounts>, out: Seq<RoundTreeData>) -> bool {
    let k = num_skipped(ss);
    &&& out.len() == ss.len() - k
    &&& forall|j: int| 0 <= j < out.len() ==> (#[trigger] out[j]).round == ss[k + j].round
    &&& forall|j: int| 0 <= j < out.len() ==> (#[trigger] out[j]).tree.wf()
    &&& forall|j: int, a: int| 0 <= j < out.len()
        ==> ((#[trigger] has_leaf(out[j].tree.allocations@, a))
            <==> appears_upto(ss, k + j + 1, a))
    &&& forall|j: int, a: int| 0 <= j < out.len()
        ==> (#[trigger] leaf_amount(out[j].tree.allocations@, a))
            == cum_addr_sum(ss, k + j + 1, a)
    &&& forall|j: int| 0 <= j < out.len() ==> (#[trigger] out[j]).round_total_amount
        == round_sum(ss[k + j].amounts@)
    &&& forall|j: int| 0 <= j < out.len() ==> (#[trigger] out[j]).accumulated_total_amount
        == total_sum(ss, k + j + 1)
}

/// The sorted-input pipeline: one cached record per round with data, the
/// Merkle tree over each round's cumulative snapshot, and the two totals.
/// Rounds whose snapshot is still empty produce nothing.
#[verifier::loop_isolation(false)]
fn cumulative_rounds_sorted(allocations: Vec<RoundAmounts>) -> (r: Vec<RoundTreeData>)
    requires
        sorted_by_round(allocations@),
        rounds_addrs_valid(allocations@),
        total_sum(allocations@, allocations@.len() as int) < b128(),
    ensures
        cumulative_rounds_ok(allocations@, r@),
{
    let ghost ss = allocations@;
    let ghost k = num_skipped(ss);
    proof {
        lemma_num_skipped_facts(ss);
    }
    if allocations.is_empty() {
        let r: Vec<RoundTreeData> = Vec::new();
        return r;
    }
    let n = allocations.len();
    let maps = map_cumulative_amounts(allocations);
    let mut rounds: Vec<RoundTreeData> = Vec::new();
    let mut acc_total: u128 = 0;
    let mut i: usize = 0;
    while i < n
        invariant
            0 <= i <= n,
            rounds@.len() == if i as int <= k {
                0int
            } else {
                i as int - k
            },
            acc_total == total_sum(ss, i as int),
            forall|j: int| 0 <= j < rounds@.len() ==> (#[trigger] rounds@[j]).round == ss[k
                + j].round,
            forall|j: int| 0 <= j < rounds@.len() ==> (#[trigger] rounds@[j]).tree.wf(),
            forall|j: int, a: int| 0 <= j < rounds@.len()
                ==> ((#[trigger] has_leaf(rounds@[j].tree.allocations@, a))
                    <==> appears_upto(ss, k + j + 1, a)),
            forall|j: int, a: int| 0 <= j < rounds@.len()
                ==> (#[trigger] leaf_amount(rounds@[j].tree.allocations@, a))
                    == cum_addr_sum(ss, k + j + 1, a),
            forall|j: int| 0 <= j < rounds@.len() ==> (#[trigger] rounds@[j]).round_total_amount
                == round_sum(ss[k + j].amounts@),
            forall|j: int| 0 <= j < rounds@.len()
                ==> (#[trigger] rounds@[j]).accumulated_total_amount == total_sum(ss, k + j + 1),
        decreases n - i,
    {
        let ii_exec = i;
        let ghost ii = i as int;
        if maps[i].cumulative_amounts.entries.len() == 0 {
            proof {
                let ents = maps@[ii].cumulative_amounts.entries@;
                assert forall|w: int| 0 <= w < ii + 1 implies (#[trigger] ss[w]).amounts@.len()
                    == 0 by {
                    if ss[w].amounts@.len() > 0 {
                        let a0 = delta_addr(ss[w].amounts@[0]);
                        assert(appears(ss[w].amounts@, a0));
                        assert(appears_upto(ss, ii + 1, a0));
                        assert(maps@[ii].cumulative_amounts.spec_contains(a0));
                        let widx = choose|widx: int|
                            0 <= widx < ents.len() && (#[trigger] ents[widx]).0@ == a0;
                        assert(false);
                    }
                }
                if ii >= k {
                    assert(k < n);
                    assert(ss[k].amounts@.len() > 0);
                    assert(false);
                }
                assert(round_sum(ss[ii].amounts@) == 0);
                assert(total_sum(ss, ii + 1) == total_sum(ss, ii) + round_sum(ss[ii].amounts@));
            }
        } else {
            proof {
                let ents = maps@[ii].cumulative_amounts.entries@;
                if ii < k {
                    let a0 = ents[0].0@;
                    assert(contains_addr(ents, a0));
                    assert(maps@[ii].cumulative_amounts.spec_contains(a0));
                    assert(appears_upto(ss, ii + 1, a0));
                    let w = choose|w: int|
                        0 <= w < ii + 1 && w < ss.len() && appears((#[trigger] ss[w]).amounts@,
                        a0);
                    let q = choose|q: int|
                        0 <= q < ss[w].amounts@.len() && delta_addr(
                            #[trigger] ss[w].amounts@[q]) == a0;
                    assert(ss[w].amounts@.len() > 0);
                    assert(ss[w].amounts@.len() == 0);
                    assert(false);
                }
            }
            let mut leaves: Vec<CumulativeAllocation> = Vec::new();
            let mut q: usize = 0;
            let cm_len = maps[i].cumulative_amounts.entries.len();
            while q < cm_len
                invariant
                    0 <= q <= cm_len,
                    leaves@.len() == q,
                    forall|p: int| 0 <= p < q ==> (#[trigger] leaves@[p]).address
                        == maps@[ii].cumulative_amounts.entries@[p].0
                        && leaves@[p].cumulative_amount
                        == maps@[ii].cumulative_amounts.entries@[p].1,
                decreases cm_len - q,
            {
                let e = maps[ii_exec].cumulative_amounts.entries[q];
                leaves.push(CumulativeAllocation { address: e.0, cumulative_amount: e.1 });
                q += 1;
            }
            proof {
                let ents = maps@[ii].cumulative_amounts.entries@;
                assert(maps@[ii].cumulative_amounts.wf());
                assert(sorted_leaves(leaves@));
                assert forall|a: int| has_leaf(leaves@, a) <==> contains_addr(ents, a) by {
                    if has_leaf(leaves@, a) {
                        let w = choose|w: int|
                            0 <= w < leaves@.len() && (#[trigger] leaves@[w]).address@ == a;
                        assert(ents[w].0@ == a);
                    }
                    if contains_addr(ents, a) {
                        let w = choose|w: int|
                            0 <= w < ents.len() && (#[trigger] ents[w]).0@ == a;
                        assert(leaves@[w].address@ == a);
                    }
                }
                assert forall|a: int| leaf_amount(leaves@, a)
                    == maps@[ii].cumulative_amounts.spec_get(a) by {
                    if has_leaf(leaves@, a) {
                        let w = choose|w: int|
                            0 <= w < leaves@.len() && (#[trigger] leaves@[w]).address@ == a;
                        lemma_leaf_index(leaves@, w);
                        lemma_lookup_at(ents, w);
                    }
                }
            }
            let tree = MerkleTree::new(leaves);
            proof {
                assert(maps@[ii].round_amounts.spec_sum() == round_sum(ss[ii].amounts@));
                lemma_round_sum_nonneg(ss[ii].amounts@);
                lemma_total_monotone(ss, ii + 1, n as int);
                lemma_total_monotone(ss, 0, ii);
                assert(total_sum(ss, ii + 1) == total_sum(ss, ii) + round_sum(ss[ii].amounts@));
            }
            let round_total = maps[i].round_amounts.total();
            acc_total = acc_total + round_total;
            let rtd = RoundTreeData {
                round: maps[i].round,
                tree,
                round_total_amount: round_total,
                accumulated_total_amount: acc_total,
            };
            let ghost prev_rounds = rounds@;
            rounds.push(rtd);
            proof {
                let jj = prev_rounds.len() as int;
                assert(jj == ii - k);
                assert(rounds@[jj] == rtd);
                assert forall|j: int, a: int| 0 <= j < rounds@.len() implies
                    ((#[trigger] has_leaf(rounds@[j].tree.allocations@, a))
                        <==> appears_upto(ss, k + j + 1, a)) by {
                    if j < jj {
                        assert(rounds@[j] == prev_rounds[j]);
                        assert(has_leaf(prev_rounds[j].tree.allocations@, a) <==> appears_upto(
                            ss, k + j + 1, a));
                    } else {
                        assert(rounds@[j].tree.allocations@ == tree.allocations@);
                        assert(has_leaf(tree.allocations@, a)
                            <==> maps@[ii].cumulative_amounts.spec_contains(a));
                    }
                }
                assert forall|j: int, a: int| 0 <= j < rounds@.len() implies
                    (#[trigger] leaf_amount(rounds@[j].tree.allocations@, a))
                        == cum_addr_sum(ss, k + j + 1, a) by {
                    if j < jj {
                        assert(rounds@[j] == prev_rounds[j]);
                        assert(leaf_amount(prev_rounds[j].tree.allocations@, a) == cum_addr_sum(
                            ss, k + j + 1, a));
                    } else {
                        assert(rounds@[j].tree.allocations@ == tree.allocations@);
                        assert(leaf_amount(tree.allocations@, a)
                            == maps@[ii].cumulative_amounts.spec_get(a));
                    }
                }
            }
        }
        i += 1;
    }
    proof {
        assert(rounds@.len() == n - k);
    }
    rounds
}

/// Turn the input deltas into cumulative tree-and-total records, one per
/// round with data. The rounds are sorted ascending by round number first,
/// so the caller may hand them in any order; with an already sorted input
/// the records correspond to the input rounds position for position.
pub fn transform_allocations_to_cumulative_rounds(allocations: Vec<RoundAmounts>) -> (r: Vec<
    RoundTreeData>)
    requires
        rounds_addrs_valid(allocations@),
        total_sum(allocations@, allocations@.len() as int) < b128(),
    ensures
        cumulative_rounds_ok(sort_spec(allocations@), r@),
        sorted_by_round(allocations@) ==> cumulative_rounds_ok(allocations@, r@),
{
    proof {
        if sorted_by_round(allocations@) {
            lemma_sort_spec_id(allocations@);
        }
    }
    let sorted = sort_round_amounts(allocations);
    cumulative_rounds_sorted(sorted)
}

/// Validate, sort and transform in one step: every address must denote a
/// field element and the grand total must fit, else nothing is produced and
/// the reason is the result's absence.
#[verifier::loop_isolation(false)]
pub fn transform_allocations_checked(allocations: Vec<RoundAmounts>) -> (r: Option<Vec<
    RoundTreeData>>)
    ensures
        r is Some <==> (rounds_addrs_valid(allocations@) && total_sum(allocations@,
            allocations@.len() as int) < b128()),
        r is Some ==> cumulative_rounds_ok(sort_spec(allocations@), r->0@),
        r is Some && sorted_by_round(allocations@) ==> cumulative_rounds_ok(allocations@,
            r->0@),
{
    let ghost rs = allocations@;
    let n = allocations.len();
    let mut total: u128 = 0;
    let mut i: usize = 0;
    while i < n
        invariant
            0 <= i <= n,
            total == total_sum(rs, i as int),
            forall|w: int, q: int| 0 <= w < i && 0 <= q < rs[w].amounts@.len()
                ==> valid_field_str((#[trigger] rs[w].amounts@[q]).address@),
        decreases n - i,
    {
        let m = allocations[i].amounts.len();
        let ghost am = rs[i as int].amounts@;
        let mut j: usize = 0;
        proof {
            assert(am.take(0) =~= Seq::<JSONAllocation>::empty());
        }
        while j < m
            invariant
                0 <= j <= m,
                total == total_sum(rs, i as int) + round_sum(am.take(j as int)),
                forall|q: int| 0 <= q < j ==> valid_field_str((#[trigger] am[q]).address@),
            decreases m - j,
        {
            match felt_from_str(allocations[i].amounts[j].address.as_str()) {
                Some(_) => {},
                None => {
                    proof {
                        assert(!valid_field_str(am[j as int].address@));
                        assert(!rounds_addrs_valid(rs));
                    }
                    return None;
                },
            }
            let amount = match parse_u128(allocations[i].amounts[j].amount.as_str()) {
                Some(v) => v,
                None => 0,
            };
            proof {
                assert(amount == parsed_amount(am[j as int]));
                lemma_round_sum_take_step(am, j as int);
                lemma_round_sum_take_le(am, j + 1 as int);
                lemma_total_monotone(rs, i + 1 as int, n as int);
                assert(total_sum(rs, i + 1 as int) == total_sum(rs, i as int) + round_sum(am));
            }
            let t2 = match total.checked_add(amount) {
                Some(v) => v,
                None => {
                    return None;
                },
            };
            total = t2;
            j += 1;
        }
        proof {
            assert(am.take(m as int) =~= am);
            assert(total_sum(rs, i + 1 as int) == total_sum(rs, i as int) + round_sum(am));
        }
        i += 1;
    }
    proof {
        assert(rounds_addrs_valid(rs));
        assert(total_sum(rs, n as int) == total);
    }
    Some(transform_allocations_to_cumulative_rounds(allocations))
}

// ---------------------------------------------------------------------------
// The query layer
// ---------------------------------------------------------------------------

/// Every cached record carries a well-formed tree.
pub open spec fn rounds_all_wf(rs: Seq<RoundTreeData>) -> bool {
    forall|i: int| 0 <= i < rs.len() ==> (#[trigger] rs[i]).tree.wf()
}

pub open spec fn has_round(rs: Seq<RoundTreeData>, x: u8) -> bool {
    exists|i: int| 0 <= i < rs.len() && (#[trigger] rs[i]).round == x
}

/// The first record carrying a round number.
pub open spec fn first_round_index(rs: Seq<RoundTreeData>, x: u8) -> int
    decreases rs.len(),
{
    if rs.len() == 0 {
        0
    } else if rs[0].round == x {
        0
    } else {
        1 + first_round_index(rs.skip(1), x)
    }
}

/// The largest round number held.
pub open spec fn max_round_val(rs: Seq<RoundTreeData>) -> u8
    decreases rs.len(),
{
    if rs.len() <= 1 {
        if rs.len() == 1 {
            rs[0].round
        } else {
            0
        }
    } else if rs.last().round >= max_round_val(rs.drop_last()) {
        rs.last().round
    } else {
        max_round_val(rs.drop_last())
    }
}

/// Whether a query's round selector names data: the explicit round must be
/// held; the implicit latest round only needs the store to be nonempty.
pub open spec fn round_resolvable(rs: Seq<RoundTreeData>, round: Option<u8>) -> bool {
    match round {
        Option::Some(x) => has_round(rs, x),
        Option::None => rs.len() > 0,
    }
}

/// The record a query's round selector names.
pub open spec fn resolved_index(rs: Seq<RoundTreeData>, round: Option<u8>) -> int {
    match round {
        Option::Some(x) => first_round_index(rs, x),
        Option::None => first_round_index(rs, max_round_val(rs)),
    }
}

proof fn lemma_first_round_index(rs: Seq<RoundTreeData>, x: u8)
    requires
        has_round(rs, x),
    ensures
        0 <= first_round_index(rs, x) < rs.len(),
        rs[first_round_index(rs, x)].round == x,
        forall|j: int| 0 <= j < first_round_index(rs, x) ==> (#[trigger] rs[j]).round != x,
    decreases rs.len(),
{
    if rs[0].round == x {
    } else {
        let w = choose|w: int| 0 <= w < rs.len() && (#[trigger] rs[w]).round == x;
        assert(w >= 1);
        assert(rs.skip(1)[w - 1] == rs[w]);
        assert(has_round(rs.skip(1), x));
        lemma_first_round_index(rs.skip(1), x);
        let f = first_round_index(rs, x);
        assert(rs.skip(1)[f - 1] == rs[f]);
        assert forall|j: int| 0 <= j < f implies (#[trigger] rs[j]).round != x by {
            if j >= 1 {
                assert(rs.skip(1)[j - 1] == rs[j]);
            }
        }
    }
}

proof fn lemma_max_round(rs: Seq<RoundTreeData>)
    requires
        rs.len() > 0,
    ensures
        has_round(rs, max_round_val(rs)),
        forall|i: int| 0 <= i < rs.len() ==> (#[trigger] rs[i]).round <= max_round_val(rs),
    decreases rs.len(),
{
    if rs.len() == 1 {
        assert(rs[0].round == max_round_val(rs));
    } else {
        let dl = rs.drop_last();
        lemma_max_round(dl);
        let m = max_round_val(rs);
        if rs.last().round >= max_round_val(dl) {
            assert(rs[rs.len() - 1].round == m);
        } else {
            let w = choose|w: int| 0 <= w < dl.len() && (#[trigger] dl[w]).round == m;
            assert(rs[w].round == m);
        }
        assert forall|i: int| 0 <= i < rs.len() implies (#[trigger] rs[i]).round <= m by {
            if i < rs.len() - 1 {
                assert(dl[i] == rs[i]);
            }
        }
    }
}

/// Resolve a round selector to the record it names, or the error that says
/// why there is none.
fn get_round_data(rounds: &Vec<RoundTreeData>, round: Option<u8>) -> (r: Result<usize,
    QueryError>)
    ensures
        r is Ok <==> round_resolvable(rounds@, round),
        r is Ok ==> r->Ok_0 == resolved_index(rounds@, round) && 0 <= r->Ok_0 < rounds@.len(),
        !(r is Ok) ==> r == (match round {
            Option::Some(_) => Err::<usize, QueryError>(QueryError::RoundNotFound),
            Option::None => Err::<usize, QueryError>(QueryError::NoDataAvailable),
        }),
{
    let n = rounds.len();
    let target: u8 = match round {
        Some(x) => x,
        None => {
            if n == 0 {
                return Err(QueryError::NoDataAvailable);
            }
            let mut mx = rounds[0].round;
            proof {
                assert(rounds@.take(1)[0] == rounds@[0]);
                assert(mx == max_round_val(rounds@.take(1)));
            }
            let mut t: usize = 1;
            while t < n
                invariant
                    1 <= t <= n,
                    n == rounds@.len(),
                    mx == max_round_val(rounds@.take(t as int)),
                decreases n - t,
            {
                proof {
                    assert(rounds@.take(t + 1 as int).drop_last() =~= rounds@.take(t as int));
                    assert(rounds@.take(t + 1 as int).last() == rounds@[t as int]);
                }
                if rounds[t].round >= mx {
                    mx = rounds[t].round;
                }
                t += 1;
            }
            proof {
                assert(rounds@.take(n as int) =~= rounds@);
                lemma_max_round(rounds@);
            }
            mx
        },
    };
    let ghost known: bool = has_round(rounds@, target);
    let mut idx: usize = 0;
    while idx < n
        invariant
            0 <= idx <= n,
            n == rounds@.len(),
            known == has_round(rounds@, target),
            round is None ==> rounds@.len() > 0 && target == max_round_val(rounds@) && known,
            round is Some ==> target == round->0,
            forall|j: int| 0 <= j < idx ==> (#[trigger] rounds@[j]).round != target,
        decreases n - idx,
    {
        if rounds[idx].round == target {
            proof {
                assert(has_round(rounds@, target));
                lemma_first_round_index(rounds@, target);
                let f = first_round_index(rounds@, target);
                if f < idx as int {
                    assert(rounds@[f].round != target);
                } else if f > idx as int {
                    assert(rounds@[idx as int].round != target);
                }
                assert(f == idx as int);
            }
            return Ok(idx);
        }
        idx += 1;
    }
    proof {
        assert(!has_round(rounds@, target));
    }
    match round {
        Some(_) => Err(QueryError::RoundNotFound),
        None => {
            proof {
                assert(false);
            }
            Err(QueryError::NoDataAvailable)
        },
    }
}

impl RoundTreeData {
    /// The cumulative amount this round's tree holds for an address; zero,
    /// not an error, when the address has no leaf.
    pub fn address_amount(&self, address: &str) -> (r: Result<u128, QueryError>)
        requires
            self.tree.wf(),
        ensures
            valid_field_str(address@) ==> r == Ok::<u128, QueryError>(leaf_amount(
                self.tree.allocations@, field_str_value(address@))),
            !valid_field_str(address@) ==> r == Err::<u128, QueryError>(
                QueryError::InvalidFieldElement),
    {
        let felt = match felt_from_str(address) {
            Some(f) => f,
            None => {
                return Err(QueryError::InvalidFieldElement);
            },
        };
        let ghost a = field_str_value(address@);
        let n = self.tree.allocations.len();
        let mut w: usize = 0;
        while w < n
            invariant
                n == self.tree.allocations@.len(),
                self.tree.wf(),
                0 <= w <= n,
                valid_field_str(address@),
                a == field_str_value(address@),
                felt@ == a,
                forall|j: int| 0 <= j < w ==> (#[trigger] self.tree.allocations@[j]).address@
                    != a,
            decreases n - w,
        {
            if self.tree.allocations[w].address == felt {
                proof {
                    crate::api::field::lemma_felt_val_order(
                        self.tree.allocations@[w as int].address, felt);
                    lemma_leaf_index(self.tree.allocations@, w as int);
                }
                return Ok(self.tree.allocations[w].cumulative_amount);
            }
            proof {
                crate::api::field::lemma_felt_val_order(
                    self.tree.allocations@[w as int].address, felt);
            }
            w += 1;
        }
        proof {
            assert(!has_leaf(self.tree.allocations@, a));
        }
        Ok(0)
    }
}

/// An address's cumulative amount in the named (or latest) round; zero when
/// the address holds no allocation there.
pub fn get_raw_allocation_amount(rounds: &Vec<RoundTreeData>, round: Option<u8>, address:
    &String) -> (r: Result<u128, QueryError>)
    requires
        rounds_all_wf(rounds@),
    ensures
        round_resolvable(rounds@, round) && valid_field_str(address@) ==> r == Ok::<u128,
            QueryError>(leaf_amount(rounds@[resolved_index(rounds@, round)].tree.allocations@,
            field_str_value(address@))),
        round_resolvable(rounds@, round) && !valid_field_str(address@) ==> r == Err::<u128,
            QueryError>(QueryError::InvalidFieldElement),
        !round_resolvable(rounds@, round) ==> r == (match round {
            Option::Some(_) => Err::<u128, QueryError>(QueryError::RoundNotFound),
            Option::None => Err::<u128, QueryError>(QueryError::NoDataAvailable),
        }),
{
    let idx = match get_round_data(rounds, round) {
        Ok(v) => v,
        Err(e) => {
            return Err(e);
        },
    };
    proof {
        assert(rounds@[idx as int].tree.wf());
    }
    rounds[idx].address_amount(address.as_str())
}

/// The proof call arguments for an address in the named (or latest) round.
/// An address without a leaf cannot claim, so that case is an error, unlike
/// the zero of an amount query.
pub fn get_raw_calldata(rounds: &Vec<RoundTreeData>, round: Option<u8>, address: &String) -> (r:
    Result<CairoCalldata, QueryError>)
    requires
        rounds_all_wf(rounds@),
    ensures
        !round_resolvable(rounds@, round) ==> r == (match round {
            Option::Some(_) => Err::<CairoCalldata, QueryError>(QueryError::RoundNotFound),
            Option::None => Err::<CairoCalldata, QueryError>(QueryError::NoDataAvailable),
        }),
        round_resolvable(rounds@, round) && !valid_field_str(address@) ==> r == Err::<
            CairoCalldata, QueryError>(QueryError::InvalidFieldElement),
        round_resolvable(rounds@, round) && valid_field_str(address@) && !crate::api::merkle_tree::has_leaf(
            rounds@[resolved_index(rounds@, round)].tree.allocations@, field_str_value(address@))
            ==> r == Err::<CairoCalldata, QueryError>(QueryError::AddressNotAllocated),
        round_resolvable(rounds@, round) && valid_field_str(address@) && crate::api::merkle_tree::has_leaf(
            rounds@[resolved_index(rounds@, round)].tree.allocations@, field_str_value(address@))
            ==> r is Ok && crate::api::merkle_tree::str_views(r->Ok_0.data@)
                == crate::api::merkle_tree::calldata_spec(
                rounds@[resolved_index(rounds@, round)].tree.allocations@,
                field_str_value(address@)),
{
    let idx = match get_round_data(rounds, round) {
        Ok(v) => v,
        Err(e) => {
            return Err(e);
        },
    };
    proof {
        assert(rounds@[idx as int].tree.wf());
    }
    rounds[idx].tree.address_calldata(address.as_str())
}

/// The root of the named (or latest) round's tree in canonical hex, and the
/// two totals as decimal strings.
pub fn get_raw_root(rounds: &Vec<RoundTreeData>, round: Option<u8>) -> (r: Result<
    RootQueryResult, QueryError>)
    requires
        rounds_all_wf(rounds@),
    ensures
        r is Ok <==> round_resolvable(rounds@, round),
        !(r is Ok) ==> r == (match round {
            Option::Some(_) => Err::<RootQueryResult, QueryError>(QueryError::RoundNotFound),
            Option::None => Err::<RootQueryResult, QueryError>(QueryError::NoDataAvailable),
        }),
        r is Ok ==> {
            let d = rounds@[resolved_index(rounds@, round)];
            &&& r->Ok_0.root@ == crate::api::merkle_tree::b16str(d.tree.root@)
            &&& r->Ok_0.accumulated_total_amount@ == dec_str_of(
                d.accumulated_total_amount as nat)
            &&& r->Ok_0.round_total_amount@ == dec_str_of(d.round_total_amount as nat)
        },
{
    let idx = match get_round_data(rounds, round) {
        Ok(v) => v,
        Err(e) => {
            return Err(e);
        },
    };
    let root = felt_to_b16(&rounds[idx].tree.root);
    let acc = u128_to_dec_string(rounds[idx].accumulated_total_amount);
    let rt = u128_to_dec_string(rounds[idx].round_total_amount);
    Ok(RootQueryResult { root, accumulated_total_amount: acc, round_total_amount: rt })
}

// ---------------------------------------------------------------------------
// Determinism
// ---------------------------------------------------------------------------

/// Sorted leaf sequences are determined by what they store: same addresses,
/// same amounts, same sequence.
pub proof fn lemma_sorted_leaves_unique(s1: Seq<CumulativeAllocation>, s2: Seq<
    CumulativeAllocation>)
    requires
        sorted_leaves(s1),
        sorted_leaves(s2),
        forall|a: int| #[trigger] has_leaf(s1, a) <==> has_leaf(s2, a),
        forall|a: int| #[trigger] leaf_amount(s1, a) == leaf_amount(s2, a),
    ensures
        s1 =~= s2,
    decreases s1.len(),
{
    if s1.len() == 0 {
        if s2.len() > 0 {
            assert(has_leaf(s2, s2[0].address@));
            assert(has_leaf(s1, s2[0].address@));
            let w = choose|w: int| 0 <= w < s1.len() && (#[trigger] s1[w]).address@
                == s2[0].address@;
            assert(false);
        }
        assert(s1 =~= s2);
    } else {
        let a1 = s1[0].address@;
        assert(has_leaf(s1, a1));
        if s2.len() == 0 {
            assert(has_leaf(s2, a1));
            let w = choose|w: int| 0 <= w < s2.len() && (#[trigger] s2[w]).address@ == a1;
            assert(false);
        }
        let a2 = s2[0].address@;
        assert(a1 == a2) by {
            assert(has_leaf(s2, a1));
            let k = choose|k: int| 0 <= k < s2.len() && (#[trigger] s2[k]).address@ == a1;
            if k > 0 {
                assert(s2[0].address@ < s2[k].address@);
                assert(has_leaf(s2, a2));
                assert(has_leaf(s1, a2));
                let m = choose|m: int| 0 <= m < s1.len() && (#[trigger] s1[m]).address@ == a2;
                if m == 0 {
                    assert(a2 == a1);
                } else {
                    assert(s1[0].address@ < s1[m].address@);
                }
                assert(false);
            }
        }
        lemma_leaf_index(s1, 0);
        lemma_leaf_index(s2, 0);
        assert(leaf_amount(s1, a1) == s1[0].cumulative_amount);
        assert(leaf_amount(s2, a1) == s2[0].cumulative_amount);
        crate::api::field::lemma_felt_val_order(s1[0].address, s2[0].address);
        assert(s1[0] == s2[0]);
        let t1 = s1.skip(1);
        let t2 = s2.skip(1);
        assert(forall|i: int| 0 <= i < t1.len() ==> #[trigger] t1[i] == s1[i + 1]);
        assert(forall|i: int| 0 <= i < t2.len() ==> #[trigger] t2[i] == s2[i + 1]);
        assert(sorted_leaves(t1));
        assert(sorted_leaves(t2));
        assert forall|a: int| #[trigger] has_leaf(t1, a) <==> has_leaf(t2, a) by {
            lemma_tail_leaf(s1, s2, a);
            lemma_tail_leaf(s2, s1, a);
        }
        assert forall|a: int| #[trigger] leaf_amount(t1, a) == leaf_amount(t2, a) by {
            lemma_tail_leaf(s1, s2, a);
            lemma_tail_leaf(s2, s1, a);
            if has_leaf(t1, a) {
                let w = choose|w: int| 0 <= w < t1.len() && (#[trigger] t1[w]).address@ == a;
                lemma_leaf_index(t1, w);
                lemma_leaf_index(s1, w + 1);
                assert(leaf_amount(t1, a) == leaf_amount(s1, a));
                assert(has_leaf(t2, a));
                let v = choose|v: int| 0 <= v < t2.len() && (#[trigger] t2[v]).address@ == a;
                lemma_leaf_index(t2, v);
                lemma_leaf_index(s2, v + 1);
                assert(leaf_amount(t2, a) == leaf_amount(s2, a));
            }
        }
        lemma_sorted_leaves_unique(t1, t2);
        assert forall|i: int| 0 <= i < s1.len() implies s1[i] == s2[i] by {
            if i >= 1 {
                assert(t1[i - 1] == t2[i - 1]);
            }
        }
        assert(s1 =~= s2);
    }
}

/// A leaf of the tail of one sequence is a leaf of the other's tail too.
proof fn lemma_tail_leaf(s1: Seq<CumulativeAllocation>, s2: Seq<CumulativeAllocation>, a: int)
    requires
        sorted_leaves(s1),
        sorted_leaves(s2),
        s1.len() > 0,
        s2.len() > 0,
        s1[0] == s2[0],
        forall|b: int| #[trigger] has_leaf(s1, b) <==> has_leaf(s2, b),
    ensures
        has_leaf(s1.skip(1), a) ==> has_leaf(s2.skip(1), a),
{
    let t1 = s1.skip(1);
    let t2 = s2.skip(1);
    if has_leaf(t1, a) {
        let w = choose|w: int| 0 <= w < t1.len() && (#[trigger] t1[w]).address@ == a;
        assert(t1[w] == s1[w + 1]);
        assert(s1[0].address@ < s1[w + 1].address@);
        assert(has_leaf(s1, a));
        assert(has_leaf(s2, a));
        let k = choose|k: int| 0 <= k < s2.len() && (#[trigger] s2[k]).address@ == a;
        if k == 0 {
            assert(s2[0].address@ == a);
            assert(s1[0].address@ == a);
            assert(false);
        }
        assert(t2[k - 1] == s2[k]);
        assert(has_leaf(t2, a));
    }
}

/// Determinism of the tree root: two well-formed trees that store the same
/// addresses with the same cumulative amounts have bit-identical roots. The
/// root is a function of the snapshot alone, so identical inputs give
/// identical roots on every run.
pub proof fn lemma_root_determinism(t1: MerkleTree, t2: MerkleTree)
    requires
        t1.wf(),
        t2.wf(),
        forall|a: int| #[trigger] has_leaf(t1.allocations@, a) <==> has_leaf(
            t2.allocations@, a),
        forall|a: int| #[trigger] leaf_amount(t1.allocations@, a) == leaf_amount(
            t2.allocations@, a),
    ensures
        t1.root@ == t2.root@,
{
    lemma_sorted_leaves_unique(t1.allocations@, t2.allocations@);
    assert(t1.allocations@ == t2.allocations@);
    crate::api::merkle_tree::lemma_root_matches(t1);
    crate::api::merkle_tree::lemma_root_matches(t2);
}

/// Monotonicity across the pipeline's output: for any address, the
/// cumulative amount a later round's tree stores is at least what any
/// earlier round's tree stores. Cumulative balances never shrink.
pub proof fn lemma_pipeline_monotonic(
    ss: Seq<RoundAmounts>,
    out: Seq<RoundTreeData>,
    j1: int,
    j2: int,
    a: int,
)
    requires
        cumulative_rounds_ok(ss, out),
        0 <= j1 <= j2 < out.len(),
    ensures
        leaf_amount(out[j1].tree.allocations@, a) <= leaf_amount(out[j2].tree.allocations@, a),
{
    let k = num_skipped(ss);
    assert(leaf_amount(out[j1].tree.allocations@, a) == cum_addr_sum(ss, k + j1 + 1, a));
    assert(leaf_amount(out[j2].tree.allocations@, a) == cum_addr_sum(ss, k + j2 + 1, a));
    lemma_num_skipped_facts(ss);
    lemma_cum_monotone(ss, k + j1 + 1, k + j2 + 1, a);
}

/// Determinism of the whole pipeline: any two outputs that meet the
/// pipeline's contract for the same input agree on every round's root.
pub proof fn lemma_pipeline_determinism(
    ss: Seq<RoundAmounts>,
    out1: Seq<RoundTreeData>,
    out2: Seq<RoundTreeData>,
    j: int,
)
    requires
        cumulative_rounds_ok(ss, out1),
        cumulative_rounds_ok(ss, out2),
        0 <= j < out1.len(),
    ensures
        out1[j].tree.root@ == out2[j].tree.root@,
{
    assert(out2.len() == out1.len());
    lemma_root_determinism(out1[j].tree, out2[j].tree);
}

} // verus!
