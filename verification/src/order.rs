//! The order of a sorted ledger: modules by the number in front of their name.
//!
//! The key of a module is the decimal number that its name holds before the
//! first underscore, and zero where that part is no such number. Modules are
//! put in ascending order of their keys; those with equal keys stay as they
//! came.

use crate::text::{chars_of, len_before, position_of};
use vstd::prelude::*;

verus! {

/// Whether `c` is one of the ten decimal digits.
pub open spec fn is_digit(c: char) -> bool {
    '0' <= c <= '9'
}

/// The number that the digit `c` stands for.
pub open spec fn digit_value(c: char) -> int {
    c as u32 - '0' as u32
}

/// Whether `s` holds nothing but decimal digits.
pub open spec fn all_digits(s: Seq<char>) -> bool {
    forall|i: int| 0 <= i < s.len() ==> is_digit(#[trigger] s[i])
}

/// The number that a run of decimal digits stands for; zero for none.
pub open spec fn decimal_value(digits: Seq<char>) -> int
    decreases digits.len(),
{
    if digits.len() == 0 {
        0
    } else {
        10 * decimal_value(digits.drop_last()) + digit_value(digits.last())
    }
}

/// The 32-bit signed number that `s` spells: an optional sign, `+` or `-`,
/// then one decimal digit or more and nothing else, where the number fits.
pub open spec fn parse_i32(s: Seq<char>) -> Option<int> {
    let signed = s.len() > 0 && (s[0] == '-' || s[0] == '+');
    let digits = if signed {
        s.drop_first()
    } else {
        s
    };
    let value = if s.len() > 0 && s[0] == '-' {
        -decimal_value(digits)
    } else {
        decimal_value(digits)
    };
    if digits.len() > 0 && all_digits(digits) && i32::MIN <= value <= i32::MAX {
        Some(value)
    } else {
        None
    }
}

/// The part of a module's name that may hold its number: what stands before
/// the first underscore, or the whole name where it has none.
pub open spec fn number_part(name: Seq<char>) -> Seq<char> {
    name.take(len_before(name, '_') as int)
}

/// The key by which a module is ordered.
pub open spec fn key_of(name: Seq<char>) -> int {
    match parse_i32(number_part(name)) {
        Some(value) => value,
        None => 0,
    }
}

/// `name` put into `sorted` behind every entry whose key is not greater.
pub open spec fn insert_by_key(sorted: Seq<Seq<char>>, name: Seq<char>) -> Seq<Seq<char>>
    decreases sorted.len(),
{
    if sorted.len() == 0 || key_of(sorted.last()) <= key_of(name) {
        sorted.push(name)
    } else {
        insert_by_key(sorted.drop_last(), name).push(sorted.last())
    }
}

/// `names` in the order of a sorted ledger.
pub open spec fn sorted_by_key(names: Seq<Seq<char>>) -> Seq<Seq<char>>
    decreases names.len(),
{
    if names.len() == 0 {
        Seq::empty()
    } else {
        insert_by_key(sorted_by_key(names.drop_last()), names.last())
    }
}

/// Whether the keys of `names` never go down from one entry to the next.
pub open spec fn keys_ascend(names: Seq<Seq<char>>) -> bool {
    forall|i: int, j: int|
        0 <= i < j < names.len() ==> key_of(#[trigger] names[i]) <= key_of(#[trigger] names[j])
}

/// The entries of `names` that have the key `key`, in the order they stand in.
pub open spec fn cluster(names: Seq<Seq<char>>, key: int) -> Seq<Seq<char>> {
    names.filter(|name: Seq<char>| key_of(name) == key)
}

/// A run of digits stands for a number that is not negative.
pub proof fn lemma_decimal_value_nonnegative(digits: Seq<char>)
    requires
        all_digits(digits),
    ensures
        decimal_value(digits) >= 0,
    decreases digits.len(),
{
    if digits.len() > 0 {
        let front = digits.drop_last();
        assert forall|i: int| 0 <= i < front.len() implies is_digit(#[trigger] front[i]) by {
            assert(front[i] == digits[i]);
        }
        lemma_decimal_value_nonnegative(front);
        assert(is_digit(digits[digits.len() - 1]));
    }
}

/// More digits behind a run never make its number smaller.
pub proof fn lemma_decimal_value_grows(digits: Seq<char>, k: int)
    requires
        all_digits(digits),
        0 <= k <= digits.len(),
    ensures
        decimal_value(digits.take(k)) <= decimal_value(digits),
    decreases digits.len() - k,
{
    if k == digits.len() {
        assert(digits.take(k) =~= digits);
    } else {
        let front = digits.drop_last();
        assert forall|i: int| 0 <= i < front.len() implies is_digit(#[trigger] front[i]) by {
            assert(front[i] == digits[i]);
        }
        lemma_decimal_value_grows(front, k);
        assert(front.take(k) =~= digits.take(k));
        lemma_decimal_value_nonnegative(front);
        assert(is_digit(digits[digits.len() - 1]));
    }
}

/// Where every entry from `at` on has a greater key than `name`, and the entry
/// before `at` has not, `name` goes to the place `at`.
pub proof fn lemma_insert_by_key_at(sorted: Seq<Seq<char>>, name: Seq<char>, at: int)
    requires
        0 <= at <= sorted.len(),
        forall|j: int| at <= j < sorted.len() ==> key_of(#[trigger] sorted[j]) > key_of(name),
        at > 0 ==> key_of(sorted[at - 1]) <= key_of(name),
    ensures
        insert_by_key(sorted, name) == sorted.insert(at, name),
    decreases sorted.len() - at,
{
    if at == sorted.len() {
        assert(sorted.insert(at, name) =~= sorted.push(name));
    } else {
        let front = sorted.drop_last();
        assert(key_of(sorted[sorted.len() - 1]) > key_of(name));
        assert forall|j: int| at <= j < front.len() implies key_of(#[trigger] front[j]) > key_of(
            name,
        ) by {
            assert(front[j] == sorted[j]);
        }
        if at > 0 {
            assert(front[at - 1] == sorted[at - 1]);
        }
        lemma_insert_by_key_at(front, name, at);
        assert(front.insert(at, name).push(sorted.last()) =~= sorted.insert(at, name));
    }
}

/// The place that `name` takes in `sorted`: behind the last entry whose key is
/// not greater.
pub open spec fn place_of(sorted: Seq<Seq<char>>, name: Seq<char>) -> int
    decreases sorted.len(),
{
    if sorted.len() == 0 || key_of(sorted.last()) <= key_of(name) {
        sorted.len() as int
    } else {
        place_of(sorted.drop_last(), name)
    }
}

/// `name` goes to its place, every entry behind it has a greater key, and the
/// entry before it has not.
pub proof fn lemma_place_of(sorted: Seq<Seq<char>>, name: Seq<char>)
    ensures
        0 <= place_of(sorted, name) <= sorted.len(),
        insert_by_key(sorted, name) == sorted.insert(place_of(sorted, name), name),
        forall|j: int|
            place_of(sorted, name) <= j < sorted.len() ==> key_of(#[trigger] sorted[j]) > key_of(
                name,
            ),
        place_of(sorted, name) > 0 ==> key_of(sorted[place_of(sorted, name) - 1]) <= key_of(name),
    decreases sorted.len(),
{
    if sorted.len() == 0 || key_of(sorted.last()) <= key_of(name) {
        assert(sorted.insert(sorted.len() as int, name) =~= sorted.push(name));
    } else {
        let front = sorted.drop_last();
        lemma_place_of(front, name);
        let at = place_of(front, name);
        assert forall|j: int| at <= j < sorted.len() implies key_of(#[trigger] sorted[j]) > key_of(
            name,
        ) by {
            if j < front.len() {
                assert(sorted[j] == front[j]);
            }
        }
        if at > 0 {
            assert(sorted[at - 1] == front[at - 1]);
        }
        assert(front.insert(at, name).push(sorted.last()) =~= sorted.insert(at, name));
    }
}

/// Putting a name into entries whose keys ascend gives entries whose keys
/// ascend.
pub proof fn lemma_insert_keeps_ascending(sorted: Seq<Seq<char>>, name: Seq<char>)
    requires
        keys_ascend(sorted),
    ensures
        keys_ascend(insert_by_key(sorted, name)),
{
    lemma_place_of(sorted, name);
    let at = place_of(sorted, name);
    let out = sorted.insert(at, name);
    assert forall|i: int, j: int| 0 <= i < j < out.len() implies key_of(#[trigger] out[i])
        <= key_of(#[trigger] out[j]) by {
        let a = if i < at {
            sorted[i]
        } else if i == at {
            name
        } else {
            sorted[i - 1]
        };
        let b = if j < at {
            sorted[j]
        } else if j == at {
            name
        } else {
            sorted[j - 1]
        };
        assert(out[i] == a);
        assert(out[j] == b);
        if i < at && j == at {
            assert(key_of(sorted[i]) <= key_of(sorted[at - 1]));
        }
    }
}

/// The keys of a sorted ledger ascend.
pub proof fn lemma_sorted_by_key_ascends(names: Seq<Seq<char>>)
    ensures
        keys_ascend(sorted_by_key(names)),
    decreases names.len(),
{
    if names.len() > 0 {
        lemma_sorted_by_key_ascends(names.drop_last());
        lemma_insert_keeps_ascending(sorted_by_key(names.drop_last()), names.last());
    }
}

/// Putting a name into entries adds it to the end of its own cluster and
/// leaves every other cluster as it was.
pub proof fn lemma_insert_keeps_clusters(sorted: Seq<Seq<char>>, name: Seq<char>, key: int)
    ensures
        cluster(insert_by_key(sorted, name), key) == if key_of(name) == key {
            cluster(sorted, key).push(name)
        } else {
            cluster(sorted, key)
        },
{
    lemma_place_of(sorted, name);
    let at = place_of(sorted, name);
    let pred = |n: Seq<char>| key_of(n) == key;
    let front = sorted.subrange(0, at);
    let back = sorted.subrange(at, sorted.len() as int);
    assert(sorted =~= front + back);
    assert(sorted.insert(at, name) =~= front.push(name) + back);
    Seq::filter_distributes_over_add(front, back, pred);
    Seq::filter_distributes_over_add(front.push(name), back, pred);
    Seq::lemma_filter_push(front, name, pred);
    if key_of(name) == key {
        assert forall|i: int| 0 <= i < back.len() implies !pred(#[trigger] back[i]) by {
            assert(back[i] == sorted[at + i]);
        }
        back.lemma_all_neg_filter_empty(pred);
        assert(back.filter(pred) =~= Seq::<Seq<char>>::empty());
        assert(front.filter(pred).push(name) + back.filter(pred) =~= (front.filter(pred)
            + back.filter(pred)).push(name));
    }
}

/// Sorting keeps each cluster: the modules with one key stand in the sorted
/// ledger in the order in which they came.
pub proof fn lemma_sorted_by_key_keeps_clusters(names: Seq<Seq<char>>, key: int)
    ensures
        cluster(sorted_by_key(names), key) == cluster(names, key),
    decreases names.len(),
{
    let pred = |n: Seq<char>| key_of(n) == key;
    if names.len() == 0 {
        assert(sorted_by_key(names) =~= names);
    } else {
        let front = names.drop_last();
        lemma_sorted_by_key_keeps_clusters(front, key);
        lemma_insert_keeps_clusters(sorted_by_key(front), names.last(), key);
        Seq::lemma_filter_push(front, names.last(), pred);
        assert(front.push(names.last()) =~= names);
    }
}

/// Sorting neither drops nor adds a module.
pub proof fn lemma_sorted_by_key_len(names: Seq<Seq<char>>)
    ensures
        sorted_by_key(names).len() == names.len(),
        sorted_by_key(names).to_multiset() == names.to_multiset(),
    decreases names.len(),
{
    broadcast use vstd::seq_lib::group_to_multiset_ensures;

    if names.len() == 0 {
        assert(sorted_by_key(names) =~= names);
    } else {
        let front = names.drop_last();
        lemma_sorted_by_key_len(front);
        let sorted = sorted_by_key(front);
        lemma_place_of(sorted, names.last());
        let at = place_of(sorted, names.last());
        vstd::seq_lib::to_multiset_insert(sorted, at, names.last());
        assert(front.push(names.last()) =~= names);
    }
}

/// Reads the first `to` characters as a 32-bit signed decimal number.
fn parse_number(chars: &Vec<char>, to: usize) -> (number: Option<i32>)
    requires
        to <= chars.len(),
    ensures
        match number {
            Some(value) => parse_i32(chars@.take(to as int)) == Some(value as int),
            None => parse_i32(chars@.take(to as int)) is None,
        },
{
    let ghost s = chars@.take(to as int);
    if to == 0 {
        return None;
    }
    let negative = chars[0] == '-';
    let start: usize = if chars[0] == '-' || chars[0] == '+' {
        1
    } else {
        0
    };
    let ghost digits = chars@.subrange(start as int, to as int);
    proof {
        assert(s[0] == chars[0]);
        if start == 1 {
            assert(s.drop_first() =~= digits);
        } else {
            assert(s =~= digits);
        }
    }
    if start == to {
        return None;
    }
    let limit: i64 = 2147483648;
    let mut magnitude: i64 = 0;
    let mut i: usize = start;
    while i < to
        invariant
            start <= i <= to <= chars.len(),
            digits == chars@.subrange(start as int, to as int),
            s == chars@.take(to as int),
            s.len() > 0,
            digits == if s[0] == '-' || s[0] == '+' {
                s.drop_first()
            } else {
                s
            },
            all_digits(digits.take(i - start)),
            magnitude == decimal_value(digits.take(i - start)),
            0 <= magnitude <= limit,
            limit == 2147483648,
        decreases to - i,
    {
        let c = chars[i];
        assert(digits[i - start] == c);
        if !('0' <= c && c <= '9') {
            return None;
        }
        let digit: i64 = (c as u32 - '0' as u32) as i64;
        proof {
            let longer = digits.take(i - start + 1);
            assert(longer.drop_last() =~= digits.take(i - start));
            assert(longer.last() == c);
            assert forall|k: int| 0 <= k < longer.len() implies is_digit(#[trigger] longer[k]) by {
                if k < i - start {
                    assert(longer[k] == digits.take(i - start)[k]);
                }
            }
        }
        magnitude = magnitude * 10 + digit;
        if magnitude > limit {
            proof {
                if all_digits(digits) {
                    lemma_decimal_value_grows(digits, i - start + 1);
                }
            }
            return None;
        }
        i += 1;
    }
    assert(digits.take(to - start) =~= digits);
    if negative {
        Some((-magnitude) as i32)
    } else if magnitude < limit {
        Some(magnitude as i32)
    } else {
        None
    }
}

/// The key by which the module `name` is ordered: the number in front of its
/// first underscore, or zero where no number stands there.
pub fn sort_key(name: &str) -> (key: i32)
    ensures
        key == key_of(name@),
{
    let chars = chars_of(name);
    let end = position_of(&chars, 0, '_');
    assert(chars@.skip(0) =~= chars@);
    match parse_number(&chars, end) {
        Some(value) => value,
        None => 0,
    }
}

/// The modules in the order of a sorted ledger: by ascending key, those with
/// equal keys in the order in which they came.
pub fn sorted_modules(modules: &Vec<String>) -> (sorted: Vec<String>)
    ensures
        sorted.deep_view() == sorted_by_key(modules.deep_view()),
{
    let ghost names = modules.deep_view();
    let mut sorted: Vec<String> = Vec::new();
    let mut keys: Vec<i32> = Vec::new();
    assert(sorted.deep_view() =~= sorted_by_key(names.take(0)));
    for i in 0..modules.len()
        invariant
            names == modules.deep_view(),
            sorted.deep_view() == sorted_by_key(names.take(i as int)),
            keys.len() == sorted.len(),
            forall|j: int| 0 <= j < keys.len() ==> keys[j] == key_of(#[trigger] sorted[j]@),
    {
        let key = sort_key(modules[i].as_str());
        let mut at: usize = sorted.len();
        while at > 0 && keys[at - 1] > key
            invariant
                at <= sorted.len(),
                keys.len() == sorted.len(),
                forall|j: int| at <= j < keys.len() ==> keys[j] > key,
            decreases at,
        {
            at -= 1;
        }
        let ghost before = sorted.deep_view();
        let ghost name = names[i as int];
        proof {
            assert forall|j: int| at <= j < before.len() implies key_of(#[trigger] before[j])
                > key_of(name) by {
                assert(before[j] == sorted[j]@);
            }
            if at > 0 {
                assert(before[at - 1] == sorted[at - 1]@);
            }
            lemma_insert_by_key_at(before, name, at as int);
            assert(names.take(i + 1).drop_last() =~= names.take(i as int));
            assert(names.take(i + 1).last() == name);
        }
        let ghost old_sorted = sorted@;
        let ghost old_keys = keys@;
        sorted.insert(at, modules[i].clone());
        keys.insert(at, key);
        proof {
            assert(sorted.deep_view() =~= before.insert(at as int, name));
            assert forall|j: int| 0 <= j < keys.len() implies keys[j] == key_of(
                #[trigger] sorted[j]@,
            ) by {
                if j < at {
                    assert(sorted[j] == old_sorted[j] && keys[j] == old_keys[j]);
                } else if j > at {
                    assert(sorted[j] == old_sorted[j - 1] && keys[j] == old_keys[j - 1]);
                }
            }
        }
    }
    assert(names.take(modules.len() as int) =~= names);
    sorted
}

} // verus!
