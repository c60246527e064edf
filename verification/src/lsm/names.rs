//! The names of table files: a sequence number of at least six digits, and `.sst`.
use vstd::arithmetic::power::pow;
use vstd::prelude::*;
use vstd::relations::{sorted_by, total_ordering};
use vstd::seq_lib::{lemma_sorted_unique, to_multiset_build, to_multiset_insert};
use vstd::slice::slice_subrange;

verus! {

/// The bytes `.sst`.
pub open spec fn suffix() -> Seq<u8> {
    seq![0x2eu8, 0x73u8, 0x73u8, 0x74u8]
}

pub open spec fn is_digit(b: u8) -> bool {
    0x30 <= b <= 0x39
}

/// The number that decimal digits write.
pub open spec fn decimal_value(digits: Seq<u8>) -> nat
    decreases digits.len(),
{
    if digits.len() == 0 {
        0
    } else {
        10 * decimal_value(digits.drop_last()) + (digits.last() - 0x30) as nat
    }
}

/// The decimal digits of a number, without leading zeros.
pub open spec fn decimal(n: nat) -> Seq<u8>
    decreases n,
{
    if n < 10 {
        seq![(0x30 + n) as u8]
    } else {
        decimal(n / 10).push((0x30 + n % 10) as u8)
    }
}

pub open spec fn zero_digits(n: nat) -> Seq<u8> {
    Seq::new(n, |i: int| 0x30u8)
}

/// The decimal digits of a number, with leading zeros up to six digits.
pub open spec fn padded(n: nat) -> Seq<u8> {
    let digits = decimal(n);
    if digits.len() < 6 {
        zero_digits((6 - digits.len()) as nat) + digits
    } else {
        digits
    }
}

/// The name of the table with the given sequence number.
pub open spec fn table_name(seq: u64) -> Seq<u8> {
    padded(seq as nat) + suffix()
}

/// The number that decimal digits write; none where there is no digit, or something else, or the
/// number does not fit.
pub open spec fn parse_digits(digits: Seq<u8>) -> Option<u64> {
    if digits.len() > 0 && (forall|i: int| 0 <= i < digits.len() ==> is_digit(#[trigger] digits[i]))
        && decimal_value(digits) <= u64::MAX {
        Some(decimal_value(digits) as u64)
    } else {
        None
    }
}

/// The number that decimal digits write, perhaps behind a plus sign.
pub open spec fn parse_number(text: Seq<u8>) -> Option<u64> {
    if text.len() > 0 && text[0] == 0x2b {
        parse_digits(text.skip(1))
    } else {
        parse_digits(text)
    }
}

pub open spec fn ends_in_suffix(name: Seq<u8>) -> bool {
    name.len() >= 4 && name.skip(name.len() - 4) == suffix()
}

/// The sequence number in a file's name, if it holds one.
pub open spec fn name_seq(name: Seq<u8>) -> Option<u64> {
    if ends_in_suffix(name) {
        parse_number(name.take(name.len() - 4))
    } else {
        None
    }
}

/// The highest sequence number in the names, or zero.
pub open spec fn max_seq(names: Seq<Seq<u8>>) -> u64
    decreases names.len(),
{
    if names.len() == 0 {
        0
    } else {
        let before = max_seq(names.drop_last());
        match name_seq(names.last()) {
            Some(seq) => if seq > before {
                seq
            } else {
                before
            },
            None => before,
        }
    }
}

/// Whether a file is a table by its name: something, and the suffix.
pub open spec fn is_table_name(name: Seq<u8>) -> bool {
    name.len() > 4 && ends_in_suffix(name)
}

/// Whether `a` is not behind `b` in the order of their bytes.
pub open spec fn not_after(a: Seq<u8>, b: Seq<u8>) -> bool
    decreases a.len(),
{
    if a.len() == 0 {
        true
    } else if b.len() == 0 {
        false
    } else if a[0] != b[0] {
        a[0] < b[0]
    } else {
        not_after(a.skip(1), b.skip(1))
    }
}

/// The sequence number in a file's name, or zero.
pub open spec fn number_of(name: Seq<u8>) -> u64 {
    match name_seq(name) {
        Some(seq) => seq,
        None => 0,
    }
}

/// Whether `a` may stand before `b`: in the order of their bytes, or by number and, where that is
/// the same, in the order of their bytes.
pub open spec fn in_order(by_number: bool, a: Seq<u8>, b: Seq<u8>) -> bool {
    if by_number && number_of(a) != number_of(b) {
        number_of(a) < number_of(b)
    } else {
        not_after(a, b)
    }
}

pub open spec fn sorted_names(names: Seq<Seq<u8>>, by_number: bool) -> Seq<Seq<u8>> {
    names.sort_by(|a: Seq<u8>, b: Seq<u8>| in_order(by_number, a, b))
}

/// The tables among the files of a directory.
pub open spec fn tables_of(names: Seq<Seq<u8>>) -> Seq<Seq<u8>> {
    names.filter(|name: Seq<u8>| is_table_name(name))
}

pub open spec fn has_number(name: Seq<u8>) -> bool {
    name_seq(name) is Some
}

/// The names that hold a sequence number.
pub open spec fn numbered(names: Seq<Seq<u8>>) -> Seq<Seq<u8>> {
    names.filter(|name: Seq<u8>| has_number(name))
}

/// `names` with those that hold a number replaced, one after the other, by `others`.
pub open spec fn placed(names: Seq<Seq<u8>>, others: Seq<Seq<u8>>) -> Seq<Seq<u8>>
    decreases names.len(),
{
    if names.len() == 0 {
        Seq::empty()
    } else if has_number(names.last()) {
        placed(names.drop_last(), others.drop_last()).push(others.last())
    } else {
        placed(names.drop_last(), others).push(names.last())
    }
}

/// The tables among the files of a directory, in the order of their names, but for those with a
/// number, which take their places among themselves by number: the older before the newer.
pub open spec fn listing(names: Seq<Seq<u8>>) -> Seq<Seq<u8>> {
    placed(sorted_names(tables_of(names), false), sorted_names(numbered(names), true))
}

/// The bytes of each string.
pub open spec fn views(strings: Seq<Vec<u8>>) -> Seq<Seq<u8>> {
    Seq::new(strings.len(), |i: int| strings[i]@)
}

proof fn lemma_not_after_is_total(a: Seq<u8>, b: Seq<u8>)
    ensures
        not_after(a, b) || not_after(b, a),
        not_after(a, b) && not_after(b, a) ==> a == b,
    decreases a.len(),
{
    if a.len() > 0 && b.len() > 0 && a[0] == b[0] {
        lemma_not_after_is_total(a.skip(1), b.skip(1));
        if a.skip(1) == b.skip(1) {
            assert(a =~= seq![a[0]] + a.skip(1));
            assert(b =~= seq![b[0]] + b.skip(1));
        }
    } else if a.len() == 0 && b.len() == 0 {
        assert(a =~= b);
    }
}

proof fn lemma_not_after_is_transitive(a: Seq<u8>, b: Seq<u8>, c: Seq<u8>)
    requires
        not_after(a, b),
        not_after(b, c),
    ensures
        not_after(a, c),
    decreases a.len(),
{
    if a.len() > 0 && a[0] == b[0] && b[0] == c[0] {
        lemma_not_after_is_transitive(a.skip(1), b.skip(1), c.skip(1));
    }
}

proof fn lemma_in_order_is_total(by_number: bool, a: Seq<u8>, b: Seq<u8>)
    ensures
        in_order(by_number, a, b) || in_order(by_number, b, a),
        in_order(by_number, a, b) && in_order(by_number, b, a) ==> a == b,
{
    lemma_not_after_is_total(a, b);
}

proof fn lemma_in_order_is_transitive(by_number: bool, a: Seq<u8>, b: Seq<u8>, c: Seq<u8>)
    requires
        in_order(by_number, a, b),
        in_order(by_number, b, c),
    ensures
        in_order(by_number, a, c),
{
    if not_after(a, b) && not_after(b, c) {
        lemma_not_after_is_transitive(a, b, c);
    }
}

proof fn lemma_name_order(by_number: bool)
    ensures
        total_ordering(|a: Seq<u8>, b: Seq<u8>| in_order(by_number, a, b)),
{
    let leq = |a: Seq<u8>, b: Seq<u8>| in_order(by_number, a, b);
    assert forall|a: Seq<u8>, b: Seq<u8>| #[trigger] leq(a, b) || #[trigger] leq(b, a) by {
        lemma_in_order_is_total(by_number, a, b);
    }
    assert forall|a: Seq<u8>| #[trigger] leq(a, a) by {
        lemma_in_order_is_total(by_number, a, a);
    }
    assert forall|a: Seq<u8>, b: Seq<u8>| #[trigger] leq(a, b) && #[trigger] leq(b, a) implies a
        == b by {
        lemma_in_order_is_total(by_number, a, b);
    }
    assert forall|a: Seq<u8>, b: Seq<u8>, c: Seq<u8>| #[trigger]
        leq(a, b) && #[trigger] leq(b, c) implies leq(a, c) by {
        lemma_in_order_is_transitive(by_number, a, b, c);
    }
}

/// Sorting keeps the names and puts them in order.
proof fn lemma_sorted_names(names: Seq<Seq<u8>>, by_number: bool)
    ensures
        sorted_by(
            sorted_names(names, by_number),
            |a: Seq<u8>, b: Seq<u8>| in_order(by_number, a, b),
        ),
        sorted_names(names, by_number).to_multiset() == names.to_multiset(),
        sorted_names(names, by_number).len() == names.len(),
        forall|i: int|
            0 <= i < names.len() ==> names.contains(#[trigger] sorted_names(names, by_number)[i]),
{
    let leq = |a: Seq<u8>, b: Seq<u8>| in_order(by_number, a, b);
    let files = sorted_names(names, by_number);
    lemma_name_order(by_number);
    names.lemma_sort_by_ensures(leq);
    files.to_multiset_ensures();
    names.to_multiset_ensures();
    assert forall|i: int| 0 <= i < names.len() implies names.contains(#[trigger] files[i]) by {
        assert(files.contains(files[i]));
        assert(files.to_multiset().count(files[i]) > 0);
    }
}

/// Names in order that are the given ones are those sorted.
proof fn lemma_is_sorted_names(files: Seq<Seq<u8>>, names: Seq<Seq<u8>>, by_number: bool)
    requires
        sorted_by(files, |a: Seq<u8>, b: Seq<u8>| in_order(by_number, a, b)),
        files.to_multiset() == names.to_multiset(),
    ensures
        files == sorted_names(names, by_number),
{
    let leq = |a: Seq<u8>, b: Seq<u8>| in_order(by_number, a, b);
    lemma_name_order(by_number);
    lemma_sorted_names(names, by_number);
    lemma_sorted_unique(files, sorted_names(names, by_number), leq);
}

/// Putting a name between those that are not behind it and those that are keeps the order.
proof fn lemma_insert_keeps_order(
    files: Seq<Seq<u8>>,
    at: int,
    name: Seq<u8>,
    by_number: bool,
)
    requires
        sorted_by(files, |a: Seq<u8>, b: Seq<u8>| in_order(by_number, a, b)),
        0 <= at <= files.len(),
        at > 0 ==> in_order(by_number, files[at - 1], name),
        forall|k: int| at <= k < files.len() ==> !in_order(by_number, #[trigger] files[k], name),
    ensures
        sorted_by(files.insert(at, name), |a: Seq<u8>, b: Seq<u8>| in_order(by_number, a, b)),
{
    let leq = |a: Seq<u8>, b: Seq<u8>| in_order(by_number, a, b);
    let after = files.insert(at, name);
    assert forall|j: int, k: int| 0 <= j < k < after.len() implies #[trigger] leq(
        after[j],
        after[k],
    ) by {
        if j < at && k == at {
            if j < at - 1 {
                assert(leq(files[j], files[at - 1]));
                lemma_in_order_is_transitive(by_number, files[j], files[at - 1], name);
            }
        } else if j == at {
            assert(after[k] == files[k - 1]);
            lemma_in_order_is_total(by_number, files[k - 1], name);
        } else if k < at {
            assert(leq(files[j], files[k]));
        } else if j < at {
            assert(leq(files[j], files[k - 1]));
        } else {
            assert(leq(files[j - 1], files[k - 1]));
        }
    }
}

proof fn lemma_multiset_of_filter(names: Seq<Seq<u8>>, keeps: spec_fn(Seq<u8>) -> bool)
    ensures
        names.filter(keeps).to_multiset() == names.to_multiset().filter(keeps),
    decreases names.len(),
{
    reveal(Seq::filter);
    if names.len() == 0 {
        names.to_multiset_ensures();
        names.filter(keeps).to_multiset_ensures();
        assert(names.filter(keeps).to_multiset() =~= names.to_multiset().filter(keeps));
    } else {
        let before = names.drop_last();
        lemma_multiset_of_filter(before, keeps);
        assert(names =~= before.push(names.last()));
        to_multiset_build(before, names.last());
        to_multiset_build(before.filter(keeps), names.last());
        assert(names.filter(keeps).to_multiset() =~= names.to_multiset().filter(keeps));
    }
}

/// Among the sorted tables there is a place for each table with a number.
proof fn lemma_places(names: Seq<Seq<u8>>)
    ensures
        ({
            let order = sorted_names(tables_of(names), false);
            let others = sorted_names(numbered(names), true);
            &&& numbered(order).to_multiset() == others.to_multiset()
            &&& numbered(order).len() == others.len()
            &&& order.to_multiset() == tables_of(names).to_multiset()
            &&& order.len() == tables_of(names).len()
        }),
{
    let is_table = |name: Seq<u8>| is_table_name(name);
    let with_number = |name: Seq<u8>| has_number(name);
    let order = sorted_names(tables_of(names), false);
    let others = sorted_names(numbered(names), true);
    lemma_sorted_names(tables_of(names), false);
    lemma_sorted_names(numbered(names), true);
    lemma_multiset_of_filter(order, with_number);
    lemma_multiset_of_filter(names, is_table);
    lemma_multiset_of_filter(names, with_number);
    assert forall|name: Seq<u8>| #[trigger] has_number(name) implies is_table_name(name) by {
        lemma_numbered_is_table(name);
    }
    assert(names.to_multiset().filter(is_table).filter(with_number)
        =~= names.to_multiset().filter(with_number));
    numbered(order).to_multiset_ensures();
    others.to_multiset_ensures();
}

/// A name that holds a number is a table's.
proof fn lemma_numbered_is_table(name: Seq<u8>)
    requires
        has_number(name),
    ensures
        is_table_name(name),
{
    if name.len() == 4 {
        assert(name.take(0) =~= Seq::empty());
    }
}

proof fn lemma_placed_len(names: Seq<Seq<u8>>, others: Seq<Seq<u8>>)
    ensures
        placed(names, others).len() == names.len(),
    decreases names.len(),
{
    if names.len() > 0 {
        lemma_placed_len(names.drop_last(), others);
        lemma_placed_len(names.drop_last(), others.drop_last());
    }
}

/// Whether a file is a table by its name.
pub fn is_sst_file(name: &[u8]) -> (b: bool)
    ensures
        b == is_table_name(name@),
{
    let n: usize = name.len();
    if n <= 4 {
        return false;
    }
    let b = name[n - 4] == 0x2e && name[n - 3] == 0x73 && name[n - 2] == 0x73 && name[n - 1]
        == 0x74;
    proof {
        let end = name@.skip(n - 4);
        assert(end[0] == name@[n - 4] && end[1] == name@[n - 3] && end[2] == name@[n - 2] && end[3]
            == name@[n - 1]);
        if b {
            assert(end =~= suffix());
        }
    }
    b
}

/// Whether `a` is behind `b` in the order of their bytes.
fn is_after(a: &[u8], b: &[u8]) -> (after: bool)
    ensures
        after == !not_after(a@, b@),
{
    let mut i: usize = 0;
    assert(a@.skip(0) =~= a@);
    assert(b@.skip(0) =~= b@);
    while i < a.len() && i < b.len() && a[i] == b[i]
        invariant
            i <= a@.len(),
            i <= b@.len(),
            not_after(a@, b@) == not_after(a@.skip(i as int), b@.skip(i as int)),
        decreases a@.len() - i,
    {
        assert(a@.skip(i as int).skip(1) =~= a@.skip(i + 1));
        assert(b@.skip(i as int).skip(1) =~= b@.skip(i + 1));
        i = i + 1;
    }
    i < a.len() && (i == b.len() || a[i] > b[i])
}

/// Whether `a` has to stand behind `b`.
fn is_out_of_order(by_number: bool, a: &[u8], b: &[u8]) -> (after: bool)
    ensures
        after == !in_order(by_number, a@, b@),
{
    if by_number {
        let m: u64 = read_seq(a).unwrap_or(0);
        let n: u64 = read_seq(b).unwrap_or(0);
        if m != n {
            return m > n;
        }
    }
    is_after(a, b)
}

/// Puts a name to its place among sorted ones.
fn insert_name(files: &mut Vec<Vec<u8>>, name: Vec<u8>, by_number: bool)
    requires
        sorted_by(
            views(old(files)@),
            |a: Seq<u8>, b: Seq<u8>| in_order(by_number, a, b),
        ),
    ensures
        sorted_by(
            views(final(files)@),
            |a: Seq<u8>, b: Seq<u8>| in_order(by_number, a, b),
        ),
        views(final(files)@).to_multiset() == views(old(files)@).to_multiset().insert(name@),
{
    let ghost before = views(files@);
    let mut at: usize = files.len();
    while at > 0 && is_out_of_order(by_number, files[at - 1].as_slice(), name.as_slice())
        invariant
            at <= files@.len(),
            before == views(files@),
            forall|k: int|
                at <= k < before.len() ==> !in_order(by_number, #[trigger] before[k], name@),
        decreases at,
    {
        assert(before[at - 1] == files@[at - 1]@);
        at = at - 1;
    }
    let ghost inserted = name@;
    files.insert(at, name);
    proof {
        assert(views(files@) =~= before.insert(at as int, inserted));
        lemma_insert_keeps_order(before, at as int, inserted, by_number);
        to_multiset_insert(before, at as int, inserted);
    }
}

/// Replaces the names that hold a number, one after the other, by others.
fn place_numbered(names: Vec<Vec<u8>>, others: &Vec<Vec<u8>>) -> (files: Vec<Vec<u8>>)
    requires
        numbered(views(names@)).len() == others@.len(),
    ensures
        views(files@) == placed(views(names@), views(others@)),
{
    let ghost order = views(names@);
    let ghost with_number = |name: Seq<u8>| has_number(name);
    let mut files: Vec<Vec<u8>> = Vec::new();
    let mut k: usize = 0;
    proof {
        reveal(Seq::filter);
        assert(order.take(0).filter(with_number) =~= Seq::empty());
        assert(views(files@) =~= placed(order.take(0), views(others@).take(0)));
    }
    for name in it: names
        invariant
            it.seq() == names@,
            order == views(names@),
            with_number == (|name: Seq<u8>| has_number(name)),
            order.filter(with_number).len() == others@.len(),
            k == order.take(it.index() as int).filter(with_number).len(),
            k <= others@.len(),
            views(files@) == placed(order.take(it.index() as int), views(others@).take(k as int)),
    {
        let ghost i = it.index() as int;
        let ghost before = views(files@);
        proof {
            reveal(Seq::filter);
            assert(order.take(i + 1).drop_last() =~= order.take(i));
            assert(order.take(i + 1).last() == name@);
            lemma_filter_of_prefix(order, with_number, i + 1);
        }
        if read_seq(name.as_slice()).is_some() {
            assert(k < others.len());
            let other = others[k].clone();
            assert(other@ =~= others@[k as int]@);
            files.push(other);
            k = k + 1;
            proof {
                assert(views(others@).take(k as int).drop_last() =~= views(others@).take(k - 1));
                assert(views(files@) =~= before.push(views(others@)[k - 1]));
            }
        } else {
            let ghost kept = name@;
            files.push(name);
            assert(views(files@) =~= before.push(kept));
        }
    }
    proof {
        assert(order.take(order.len() as int) =~= order);
        assert(views(others@).take(k as int) =~= views(others@));
    }
    files
}

proof fn lemma_filter_of_prefix(names: Seq<Seq<u8>>, keeps: spec_fn(Seq<u8>) -> bool, n: int)
    requires
        0 <= n <= names.len(),
    ensures
        names.take(n).filter(keeps).len() <= names.filter(keeps).len(),
    decreases names.len(),
{
    reveal(Seq::filter);
    if n == names.len() {
        assert(names.take(n) =~= names);
    } else {
        lemma_filter_of_prefix(names.drop_last(), keeps, n);
        assert(names.drop_last().take(n) =~= names.take(n));
    }
}

/// The tables among the files of a directory, in the order of their names, those with a number
/// among themselves by number.
pub fn list_sst_files(names: Vec<Vec<u8>>) -> (files: Vec<Vec<u8>>)
    ensures
        views(files@) == listing(views(names@)),
{
    let ghost all = views(names@);
    let ghost is_table = |name: Seq<u8>| is_table_name(name);
    let ghost with_number = |name: Seq<u8>| has_number(name);
    let mut order: Vec<Vec<u8>> = Vec::new();
    let mut others: Vec<Vec<u8>> = Vec::new();
    proof {
        reveal(Seq::filter);
        assert(all.take(0).filter(is_table) =~= Seq::empty());
        assert(all.take(0).filter(with_number) =~= Seq::empty());
        assert(views(order@) =~= Seq::empty());
        assert(views(others@) =~= Seq::empty());
    }
    for name in it: names
        invariant
            it.seq() == names@,
            all == views(names@),
            is_table == (|name: Seq<u8>| is_table_name(name)),
            with_number == (|name: Seq<u8>| has_number(name)),
            sorted_by(views(order@), |a: Seq<u8>, b: Seq<u8>| in_order(false, a, b)),
            sorted_by(views(others@), |a: Seq<u8>, b: Seq<u8>| in_order(true, a, b)),
            views(order@).to_multiset() == all.take(it.index() as int).filter(
                is_table,
            ).to_multiset(),
            views(others@).to_multiset() == all.take(it.index() as int).filter(
                with_number,
            ).to_multiset(),
    {
        let ghost i = it.index() as int;
        let ghost (tables, numbers) = (
            all.take(i).filter(is_table),
            all.take(i).filter(with_number),
        );
        proof {
            reveal(Seq::filter);
            assert(all.take(i + 1).drop_last() =~= all.take(i));
            assert(all.take(i + 1).last() == name@);
            to_multiset_build(tables, name@);
            to_multiset_build(numbers, name@);
        }
        if is_sst_file(name.as_slice()) {
            if read_seq(name.as_slice()).is_some() {
                let copy = name.clone();
                assert(copy@ =~= name@);
                insert_name(&mut others, copy, true);
            }
            insert_name(&mut order, name, false);
        } else {
            proof {
                if has_number(name@) {
                    lemma_numbered_is_table(name@);
                }
            }
        }
    }
    proof {
        assert(all.take(all.len() as int) =~= all);
        lemma_is_sorted_names(views(order@), tables_of(all), false);
        lemma_is_sorted_names(views(others@), numbered(all), true);
        lemma_places(all);
    }
    place_numbered(order, &others)
}

/// How many tables are among the files of a directory.
pub fn count_sst_files(names: &Vec<Vec<u8>>) -> (n: usize)
    ensures
        n == listing(views(names@)).len(),
{
    let ghost all = views(names@);
    let ghost is_table = |name: Seq<u8>| is_table_name(name);
    let mut n: usize = 0;
    let mut i: usize = 0;
    proof {
        reveal(Seq::filter);
        assert(all.take(0).filter(is_table) =~= Seq::empty());
    }
    while i < names.len()
        invariant
            i <= names@.len(),
            n <= i,
            all == views(names@),
            is_table == (|name: Seq<u8>| is_table_name(name)),
            n == all.take(i as int).filter(is_table).len(),
        decreases names@.len() - i,
    {
        proof {
            reveal(Seq::filter);
            assert(all.take(i + 1).drop_last() =~= all.take(i as int));
            assert(all.take(i + 1).last() == names@[i as int]@);
        }
        if is_sst_file(names[i].as_slice()) {
            n = n + 1;
        }
        i = i + 1;
    }
    proof {
        assert(all.take(i as int) =~= all);
        lemma_places(all);
        lemma_placed_len(
            sorted_names(tables_of(all), false),
            sorted_names(numbered(all), true),
        );
    }
    n
}

/// What is written only grows with more digits.
proof fn lemma_decimal_value_grows(digits: Seq<u8>, n: int)
    requires
        0 <= n <= digits.len(),
    ensures
        decimal_value(digits.take(n)) <= decimal_value(digits),
    decreases digits.len() - n,
{
    if n == digits.len() {
        assert(digits.take(n) =~= digits);
    } else {
        lemma_decimal_value_grows(digits, n + 1);
        assert(digits.take(n + 1).drop_last() =~= digits.take(n));
    }
}

/// The number that decimal digits write.
fn read_digits(digits: &[u8]) -> (number: Option<u64>)
    ensures
        number == parse_digits(digits@),
{
    if digits.len() == 0 {
        return None;
    }
    let mut value: u64 = 0;
    let mut i: usize = 0;
    while i < digits.len()
        invariant
            i <= digits@.len(),
            forall|k: int| 0 <= k < i ==> is_digit(#[trigger] digits@[k]),
            value == decimal_value(digits@.take(i as int)),
        decreases digits@.len() - i,
    {
        let digit: u8 = digits[i];
        if digit < 0x30 || digit > 0x39 {
            assert(!is_digit(digits@[i as int]));
            return None;
        }
        let d: u64 = (digit - 0x30) as u64;
        proof {
            assert(digits@.take(i + 1).drop_last() =~= digits@.take(i as int));
            lemma_decimal_value_grows(digits@, i + 1);
        }
        if value > (u64::MAX - d) / 10 {
            return None;
        }
        value = 10 * value + d;
        i = i + 1;
    }
    assert(digits@.take(i as int) =~= digits@);
    Some(value)
}

/// The number that decimal digits write, perhaps behind a plus sign.
fn read_number(text: &[u8]) -> (number: Option<u64>)
    ensures
        number == parse_number(text@),
{
    if text.len() > 0 && text[0] == 0x2b {
        let digits = slice_subrange(text, 1, text.len());
        assert(digits@ =~= text@.skip(1));
        read_digits(digits)
    } else {
        read_digits(text)
    }
}

/// The sequence number in a file's name, if it holds one.
fn read_seq(name: &[u8]) -> (seq: Option<u64>)
    ensures
        seq == name_seq(name@),
{
    if !is_sst_file(name) {
        assert(name@.len() == 4 ==> name@.take(0) =~= Seq::empty());
        return None;
    }
    let stem = slice_subrange(name, 0, name.len() - 4);
    assert(stem@ =~= name@.take(name@.len() - 4));
    read_number(stem)
}

/// The highest sequence number in the names of a directory's files, or zero.
pub fn find_max_seq(names: &Vec<Vec<u8>>) -> (max: u64)
    ensures
        max == max_seq(views(names@)),
{
    let ghost all = views(names@);
    let mut max: u64 = 0;
    let mut i: usize = 0;
    while i < names.len()
        invariant
            i <= names@.len(),
            all == views(names@),
            max == max_seq(all.take(i as int)),
        decreases names@.len() - i,
    {
        assert(all.take(i + 1).drop_last() =~= all.take(i as int));
        assert(all.take(i + 1).last() == names@[i as int]@);
        if let Some(seq) = read_seq(names[i].as_slice()) {
            if seq > max {
                max = seq;
            }
        }
        i = i + 1;
    }
    assert(all.take(i as int) =~= all);
    max
}

/// Writes a number as decimal digits.
fn push_decimal(text: &mut Vec<u8>, n: u64)
    ensures
        final(text)@ == old(text)@ + decimal(n as nat),
    decreases n,
{
    if n >= 10 {
        push_decimal(text, n / 10);
    }
    let digit: u8 = (n % 10) as u8;
    text.push(0x30 + digit);
    assert(text@ =~= old(text)@ + decimal(n as nat));
}

/// The name of the table with the given sequence number.
pub fn sst_name(seq: u64) -> (name: Vec<u8>)
    ensures
        name@ == table_name(seq),
{
    let mut digits: Vec<u8> = Vec::new();
    push_decimal(&mut digits, seq);
    assert(digits@ =~= decimal(seq as nat));
    let mut name: Vec<u8> = Vec::new();
    while name.len() + digits.len() < 6
        invariant
            name@.len() + digits@.len() <= 6 || name@.len() == 0,
            name@ =~= zero_digits(name@.len()),
        decreases 6 - name@.len(),
    {
        name.push(0x30);
    }
    name.append(&mut digits);
    assert(name@ =~= padded(seq as nat));
    name.push(0x2e);
    name.push(0x73);
    name.push(0x73);
    name.push(0x74);
    assert(name@ =~= table_name(seq));
    name
}

/// The digits of a number write it.
proof fn lemma_decimal(n: nat)
    ensures
        decimal(n).len() > 0,
        forall|i: int| 0 <= i < decimal(n).len() ==> is_digit(#[trigger] decimal(n)[i]),
        decimal_value(decimal(n)) == n,
    decreases n,
{
    reveal_with_fuel(decimal_value, 2);
    if n >= 10 {
        lemma_decimal(n / 10);
        assert(decimal(n).drop_last() =~= decimal(n / 10));
    } else {
        assert(decimal(n).drop_last() =~= Seq::empty());
    }
}

proof fn lemma_leading_zeros(n: nat, digits: Seq<u8>)
    ensures
        decimal_value(zero_digits(n) + digits) == decimal_value(digits),
    decreases n + digits.len(),
{
    if digits.len() > 0 {
        lemma_leading_zeros(n, digits.drop_last());
        assert((zero_digits(n) + digits).drop_last() =~= zero_digits(n) + digits.drop_last());
    } else if n > 0 {
        lemma_leading_zeros((n - 1) as nat, digits);
        assert((zero_digits(n) + digits).drop_last() =~= zero_digits((n - 1) as nat) + digits);
    }
}

proof fn lemma_padded(n: nat)
    ensures
        padded(n).len() > 0,
        forall|i: int| 0 <= i < padded(n).len() ==> is_digit(#[trigger] padded(n)[i]),
        decimal_value(padded(n)) == n,
{
    lemma_decimal(n);
    if decimal(n).len() < 6 {
        lemma_leading_zeros((6 - decimal(n).len()) as nat, decimal(n));
    }
}

/// The name of a table is a table's name, and holds its sequence number.
pub proof fn name_holds_its_number(seq: u64)
    ensures
        is_table_name(table_name(seq)),
        name_seq(table_name(seq)) == Some(seq),
{
    let name = table_name(seq);
    lemma_padded(seq as nat);
    assert(name.skip(name.len() - 4) =~= suffix());
    assert(name.take(name.len() - 4) =~= padded(seq as nat));
    assert(is_digit(padded(seq as nat)[0]));
}

pub proof fn lemma_max_seq(names: Seq<Seq<u8>>, i: int)
    requires
        0 <= i < names.len(),
    ensures
        name_seq(names[i]) matches Some(seq) ==> seq <= max_seq(names),
    decreases names.len(),
{
    if i < names.len() - 1 {
        lemma_max_seq(names.drop_last(), i);
    }
}

/// No file has the name of a table with a sequence number above all those in use.
pub proof fn next_name_is_new(names: Seq<Seq<u8>>, seq: u64)
    requires
        seq > max_seq(names),
    ensures
        !names.contains(table_name(seq)),
{
    name_holds_its_number(seq);
    if names.contains(table_name(seq)) {
        let i = choose|i: int| 0 <= i < names.len() && names[i] == table_name(seq);
        lemma_max_seq(names, i);
    }
}

/// Names of tables are in the order of their sequence numbers.
pub proof fn names_are_in_order_of_numbers(a: u64, b: u64)
    requires
        a < b,
    ensures
        in_order(true, table_name(a), table_name(b)),
        !in_order(true, table_name(b), table_name(a)),
{
    name_holds_its_number(a);
    name_holds_its_number(b);
}

/// Replacing each name that holds a number by itself changes nothing.
proof fn lemma_placed_in_place(names: Seq<Seq<u8>>)
    ensures
        placed(names, numbered(names)) == names,
    decreases names.len(),
{
    reveal(Seq::filter);
    if names.len() == 0 {
        assert(placed(names, numbered(names)) =~= names);
    } else {
        let before = names.drop_last();
        lemma_placed_in_place(before);
        if has_number(names.last()) {
            assert(numbered(names).drop_last() =~= numbered(before));
        }
        assert(placed(names, numbered(names)) =~= names);
    }
}

/// What holds a number in the replaced names is what they were replaced by; the rest stays.
proof fn lemma_numbered_of_placed(names: Seq<Seq<u8>>, others: Seq<Seq<u8>>)
    requires
        numbered(names).len() == others.len(),
        forall|i: int| 0 <= i < others.len() ==> has_number(#[trigger] others[i]),
    ensures
        numbered(placed(names, others)) == others,
        placed(names, others).to_multiset() == names.filter(
            |name: Seq<u8>| !has_number(name),
        ).to_multiset().add(others.to_multiset()),
    decreases names.len(),
{
    let without = |name: Seq<u8>| !has_number(name);
    let files = placed(names, others);
    reveal(Seq::filter);
    if names.len() == 0 {
        assert(numbered(files) =~= others);
        files.to_multiset_ensures();
        others.to_multiset_ensures();
        names.filter(without).to_multiset_ensures();
        assert(files.to_multiset() =~= names.filter(without).to_multiset().add(
            others.to_multiset(),
        ));
    } else {
        let before = names.drop_last();
        if has_number(names.last()) {
            let fewer = others.drop_last();
            let last = others[others.len() - 1];
            assert(forall|i: int| 0 <= i < fewer.len() ==> #[trigger] fewer[i] == others[i]);
            lemma_numbered_of_placed(before, fewer);
            assert(files.drop_last() =~= placed(before, fewer));
            assert(has_number(last));
            assert(numbered(files) =~= others);
            to_multiset_build(placed(before, fewer), last);
            to_multiset_build(fewer, last);
            assert(fewer.push(last) =~= others);
        } else {
            let last = names.last();
            lemma_numbered_of_placed(before, others);
            assert(files.drop_last() =~= placed(before, others));
            assert(numbered(files) =~= others);
            to_multiset_build(placed(before, others), last);
            to_multiset_build(before.filter(without), last);
        }
        assert(files.to_multiset() =~= names.filter(without).to_multiset().add(
            others.to_multiset(),
        ));
    }
}

proof fn lemma_numbered_have_numbers(names: Seq<Seq<u8>>)
    ensures
        forall|i: int|
            0 <= i < sorted_names(numbered(names), true).len() ==> has_number(
                #[trigger] sorted_names(numbered(names), true)[i],
            ),
{
    let with_number = |name: Seq<u8>| has_number(name);
    let others = sorted_names(numbered(names), true);
    lemma_sorted_names(numbered(names), true);
    assert forall|i: int| 0 <= i < others.len() implies has_number(#[trigger] others[i]) by {
        assert(numbered(names).contains(others[i]));
        let k = choose|k: int| 0 <= k < numbered(names).len() && numbered(names)[k] == others[i];
        names.lemma_filter_pred(with_number, k);
    }
}

/// The listing holds each table of a directory once.
pub proof fn listing_holds_the_tables(names: Seq<Seq<u8>>)
    ensures
        listing(names).to_multiset() == tables_of(names).to_multiset(),
{
    let with_number = |name: Seq<u8>| has_number(name);
    let without = |name: Seq<u8>| !has_number(name);
    let order = sorted_names(tables_of(names), false);
    lemma_places(names);
    lemma_numbered_have_numbers(names);
    lemma_numbered_of_placed(order, sorted_names(numbered(names), true));
    lemma_multiset_of_filter(order, with_number);
    lemma_multiset_of_filter(order, without);
    assert(order.to_multiset().filter(without).add(order.to_multiset().filter(with_number))
        =~= order.to_multiset());
}

/// Tables with a number are listed by number.
pub proof fn numbered_tables_are_listed_by_number(names: Seq<Seq<u8>>)
    ensures
        numbered(listing(names)) == sorted_names(numbered(names), true),
{
    lemma_places(names);
    lemma_numbered_have_numbers(names);
    lemma_numbered_of_placed(
        sorted_names(tables_of(names), false),
        sorted_names(numbered(names), true),
    );
}

/// Where the order of the names is that of the numbers, it is that of the listing.
pub proof fn listing_is_in_order_of_names(names: Seq<Seq<u8>>)
    requires
        sorted_by(
            numbered(sorted_names(tables_of(names), false)),
            |a: Seq<u8>, b: Seq<u8>| in_order(true, a, b),
        ),
    ensures
        listing(names) == sorted_names(tables_of(names), false),
{
    let order = sorted_names(tables_of(names), false);
    lemma_places(names);
    lemma_sorted_names(numbered(names), true);
    lemma_is_sorted_names(numbered(order), numbered(names), true);
    lemma_placed_in_place(order);
}

/// Whether every table of a directory has a number.
pub open spec fn tables_have_numbers(names: Seq<Seq<u8>>) -> bool {
    forall|i: int| 0 <= i < names.len() && is_table_name(#[trigger] names[i]) ==> has_number(names[i])
}

/// Where every table has a number, the listing is by number.
proof fn lemma_listing_of_numbered(names: Seq<Seq<u8>>)
    requires
        tables_have_numbers(names),
    ensures
        listing(names) == sorted_names(numbered(names), true),
{
    let order = sorted_names(tables_of(names), false);
    let is_table = |name: Seq<u8>| is_table_name(name);
    lemma_sorted_names(tables_of(names), false);
    lemma_places(names);
    assert forall|i: int| 0 <= i < order.len() implies has_number(#[trigger] order[i]) by {
        assert(tables_of(names).contains(order[i]));
        names.lemma_filter_contains_rev(is_table, order[i]);
        let k = choose|k: int| 0 <= k < tables_of(names).len() && tables_of(names)[k] == order[i];
        names.lemma_filter_pred(is_table, k);
        let j = choose|j: int| 0 <= j < names.len() && names[j] == order[i];
        assert(is_table_name(names[j]));
    }
    lemma_all_numbered(order);
    lemma_placed_everywhere(order, sorted_names(numbered(names), true));
}

proof fn lemma_all_numbered(names: Seq<Seq<u8>>)
    requires
        forall|i: int| 0 <= i < names.len() ==> has_number(#[trigger] names[i]),
    ensures
        numbered(names) == names,
    decreases names.len(),
{
    reveal(Seq::filter);
    if names.len() > 0 {
        let before = names.drop_last();
        assert(forall|i: int| 0 <= i < before.len() ==> #[trigger] before[i] == names[i]);
        lemma_all_numbered(before);
        assert(has_number(names[names.len() - 1]));
    }
    assert(numbered(names) =~= names);
}

proof fn lemma_placed_everywhere(names: Seq<Seq<u8>>, others: Seq<Seq<u8>>)
    requires
        names.len() == others.len(),
        forall|i: int| 0 <= i < names.len() ==> has_number(#[trigger] names[i]),
    ensures
        placed(names, others) == others,
    decreases names.len(),
{
    if names.len() > 0 {
        let before = names.drop_last();
        assert(forall|i: int| 0 <= i < before.len() ==> #[trigger] before[i] == names[i]);
        lemma_placed_everywhere(before, others.drop_last());
        assert(has_number(names[names.len() - 1]));
    }
    assert(placed(names, others) =~= others);
}

/// Where every table has a number, a table with a number above all those in use comes last in the
/// listing.
pub proof fn new_table_is_listed_last(names: Seq<Seq<u8>>, seq: u64)
    requires
        tables_have_numbers(names),
        seq > max_seq(names),
    ensures
        listing(names.push(table_name(seq))) == listing(names).push(table_name(seq)),
{
    let leq = |a: Seq<u8>, b: Seq<u8>| in_order(true, a, b);
    let with_number = |name: Seq<u8>| has_number(name);
    let new = table_name(seq);
    let more = names.push(new);
    let files = sorted_names(numbered(names), true);
    name_holds_its_number(seq);
    lemma_sorted_names(numbered(names), true);
    assert(tables_have_numbers(more)) by {
        assert forall|i: int| 0 <= i < more.len() && is_table_name(
            #[trigger] more[i],
        ) implies has_number(more[i]) by {
            if i < names.len() {
                assert(more[i] == names[i]);
            }
        }
    }
    lemma_listing_of_numbered(names);
    lemma_listing_of_numbered(more);
    assert forall|j: int, k: int| 0 <= j < k < files.push(new).len() implies #[trigger] leq(
        files.push(new)[j],
        files.push(new)[k],
    ) by {
        if k < files.len() {
            assert(leq(files[j], files[k]));
        } else {
            assert(numbered(names).contains(files[j]));
            names.lemma_filter_contains_rev(with_number, files[j]);
            let i = choose|i: int| 0 <= i < names.len() && names[i] == files[j];
            lemma_max_seq(names, i);
        }
    }
    to_multiset_build(files, new);
    to_multiset_build(numbered(names), new);
    assert(numbered(more) =~= numbered(names).push(new)) by {
        reveal(Seq::filter);
        assert(more.drop_last() =~= names);
    }
    lemma_is_sorted_names(files.push(new), numbered(more), true);
}

/// A directory whose tables all have numbers lists them in the order of these, in whatever order it
/// names its files, and whatever other files it holds.
pub proof fn tables_are_listed_by_number(names: Seq<Seq<u8>>, numbers: Seq<u64>)
    requires
        forall|i: int, j: int| 0 <= i < j < numbers.len() ==> numbers[i] < numbers[j],
        tables_of(names).to_multiset() == Seq::new(
            numbers.len(),
            |i: int| table_name(numbers[i]),
        ).to_multiset(),
    ensures
        listing(names) == Seq::new(numbers.len(), |i: int| table_name(numbers[i])),
{
    let leq = |a: Seq<u8>, b: Seq<u8>| in_order(true, a, b);
    let is_table = |name: Seq<u8>| is_table_name(name);
    let with_number = |name: Seq<u8>| has_number(name);
    let files = Seq::new(numbers.len(), |i: int| table_name(numbers[i]));
    assert forall|j: int, k: int| 0 <= j < k < files.len() implies #[trigger] leq(
        files[j],
        files[k],
    ) by {
        names_are_in_order_of_numbers(numbers[j], numbers[k]);
    }
    assert forall|i: int| 0 <= i < files.len() implies has_number(#[trigger] files[i]) by {
        name_holds_its_number(numbers[i]);
    }
    files.to_multiset_ensures();
    tables_of(names).to_multiset_ensures();
    assert forall|i: int| 0 <= i < names.len() && is_table_name(
        #[trigger] names[i],
    ) implies has_number(names[i]) by {
        names.lemma_filter_contains(is_table, i);
        assert(tables_of(names).to_multiset().count(names[i]) > 0);
        assert(files.contains(names[i]));
    }
    lemma_listing_of_numbered(names);
    lemma_all_numbered(files);
    lemma_multiset_of_filter(files, with_number);
    lemma_multiset_of_filter(tables_of(names), with_number);
    lemma_multiset_of_filter(names, is_table);
    lemma_multiset_of_filter(names, with_number);
    assert forall|name: Seq<u8>| #[trigger] has_number(name) implies is_table_name(name) by {
        lemma_numbered_is_table(name);
    }
    assert(names.to_multiset().filter(is_table).filter(with_number)
        =~= names.to_multiset().filter(with_number));
    lemma_is_sorted_names(files, numbered(names), true);
}

/// The listing does not depend on the order in which a directory names its files.
pub proof fn listing_does_not_depend_on_order(a: Seq<Seq<u8>>, b: Seq<Seq<u8>>)
    requires
        a.to_multiset() == b.to_multiset(),
    ensures
        listing(a) == listing(b),
{
    let is_table = |name: Seq<u8>| is_table_name(name);
    let with_number = |name: Seq<u8>| has_number(name);
    lemma_multiset_of_filter(a, is_table);
    lemma_multiset_of_filter(b, is_table);
    lemma_multiset_of_filter(a, with_number);
    lemma_multiset_of_filter(b, with_number);
    lemma_sorted_names(tables_of(a), false);
    lemma_sorted_names(numbered(a), true);
    lemma_is_sorted_names(sorted_names(tables_of(a), false), tables_of(b), false);
    lemma_is_sorted_names(sorted_names(numbered(a), true), numbered(b), true);
}

proof fn lemma_no_leading_zero(n: nat)
    ensures
        decimal(n).len() > 1 ==> decimal(n)[0] != 0x30,
        decimal(n).len() == 1 ==> n < 10,
        n > 0 ==> decimal(n)[0] != 0x30,
    decreases n,
{
    lemma_decimal(n);
    if n >= 10 {
        lemma_no_leading_zero(n / 10);
        lemma_decimal(n / 10);
        assert(decimal(n)[0] == decimal(n / 10)[0]);
    }
}

/// The name of a table is its sequence number in decimal digits, with leading zeros up to six
/// digits and no others, and `.sst`.
pub proof fn name_is_the_number_in_digits(seq: u64)
    ensures
        ({
            let name = table_name(seq);
            let n = name.len() - 4;
            &&& n >= 6
            &&& name.skip(n) == seq![0x2eu8, 0x73u8, 0x73u8, 0x74u8]
            &&& forall|i: int| 0 <= i < n ==> 0x30 <= #[trigger] name[i] <= 0x39
            &&& decimal_value(name.take(n)) == seq
            &&& n > 6 ==> name[0] != 0x30
        }),
{
    let name = table_name(seq);
    let n = name.len() - 4;
    lemma_padded(seq as nat);
    lemma_no_leading_zero(seq as nat);
    assert(name.skip(n) =~= suffix());
    assert(name.take(n) =~= padded(seq as nat));
    assert forall|i: int| 0 <= i < n implies 0x30 <= #[trigger] name[i] <= 0x39 by {
        assert(name[i] == padded(seq as nat)[i]);
        assert(is_digit(padded(seq as nat)[i]));
    }
}

/// A digit writes its number, and each digit behind others stands for the next lower power of ten.
pub proof fn digits_have_places(digits: Seq<u8>, more: Seq<u8>)
    ensures
        forall|d: u8| 0x30 <= d <= 0x39 ==> #[trigger] decimal_value(seq![d]) == d - 0x30,
        decimal_value(digits + more) == decimal_value(digits) * pow(10, more.len())
            + decimal_value(more),
    decreases more.len(),
{
    reveal(pow);
    assert forall|d: u8| 0x30 <= d <= 0x39 implies #[trigger] decimal_value(seq![d]) == d
        - 0x30 by {
        assert(seq![d].drop_last() =~= Seq::empty());
        assert(decimal_value(seq![d].drop_last()) == 0);
    }
    if more.len() == 0 {
        assert(digits + more =~= digits);
    } else {
        let before = more.drop_last();
        digits_have_places(digits, before);
        assert((digits + more).drop_last() =~= digits + before);
        assert(10 * (decimal_value(digits) * pow(10, before.len())) == decimal_value(digits) * (10
            * pow(10, before.len()))) by (nonlinear_arith);
    }
}

/// Digits before `.sst` are read as the number that they write, also behind a plus sign, unless it
/// has more than 64 bits.
pub proof fn digits_of_a_name_are_its_number(digits: Seq<u8>)
    requires
        digits.len() > 0,
        forall|i: int| 0 <= i < digits.len() ==> 0x30 <= #[trigger] digits[i] <= 0x39,
    ensures
        ({
            let expected = if decimal_value(digits) <= u64::MAX {
                Some(decimal_value(digits) as u64)
            } else {
                None
            };
            &&& name_seq(digits + seq![0x2eu8, 0x73u8, 0x73u8, 0x74u8]) == expected
            &&& name_seq(seq![0x2bu8] + digits + seq![0x2eu8, 0x73u8, 0x73u8, 0x74u8]) == expected
        }),
{
    let (a, b) = (digits + suffix(), seq![0x2bu8] + digits + suffix());
    assert(a.take(a.len() - 4) =~= digits);
    assert(a.skip(a.len() - 4) =~= suffix());
    assert(b.take(b.len() - 4) =~= seq![0x2bu8] + digits);
    assert(b.skip(b.len() - 4) =~= suffix());
    assert((seq![0x2bu8] + digits).skip(1) =~= digits);
    assert(forall|i: int| 0 <= i < digits.len() ==> is_digit(#[trigger] digits[i]));
    assert(0x30 <= digits[0]);
}

/// No other name holds a number: one that does ends in `.sst`, with nothing but digits before that
/// and perhaps a plus sign before these.
pub proof fn only_digits_are_a_number(name: Seq<u8>)
    requires
        name_seq(name) is Some,
    ensures
        ({
            let n = name.len() - 4;
            let sign = if name[0] == 0x2b {
                1int
            } else {
                0int
            };
            &&& n > sign
            &&& name.skip(n) == seq![0x2eu8, 0x73u8, 0x73u8, 0x74u8]
            &&& forall|i: int| sign <= i < n ==> 0x30 <= #[trigger] name[i] <= 0x39
            &&& name_seq(name) == Some(decimal_value(name.subrange(sign, n)) as u64)
            &&& decimal_value(name.subrange(sign, n)) <= u64::MAX
        }),
{
    let n = name.len() - 4;
    let text = name.take(n);
    if text.len() > 0 && text[0] == 0x2b {
        let digits = text.skip(1);
        assert(digits =~= name.subrange(1, n));
        assert forall|i: int| 1 <= i < n implies 0x30 <= #[trigger] name[i] <= 0x39 by {
            assert(is_digit(digits[i - 1]));
        }
    } else {
        assert(text =~= name.subrange(0, n));
        assert forall|i: int| 0 <= i < n implies 0x30 <= #[trigger] name[i] <= 0x39 by {
            assert(is_digit(text[i]));
        }
    }
}

/// The highest number of some names is that of one of them, and none is higher; without numbers it
/// is zero.
pub proof fn max_seq_is_the_highest_in_use(names: Seq<Seq<u8>>)
    ensures
        forall|i: int|
            0 <= i < names.len() ==> (name_seq(#[trigger] names[i]) matches Some(seq) ==> seq
                <= max_seq(names)),
        max_seq(names) == 0 || exists|i: int|
            0 <= i < names.len() && name_seq(#[trigger] names[i]) == Some(max_seq(names)),
    decreases names.len(),
{
    assert forall|i: int| 0 <= i < names.len() implies (name_seq(#[trigger] names[i]) matches Some(
        seq,
    ) ==> seq <= max_seq(names)) by {
        lemma_max_seq(names, i);
    }
    if names.len() > 0 {
        let before = names.drop_last();
        max_seq_is_the_highest_in_use(before);
        assert(names[names.len() - 1] == names.last());
        if max_seq(names) == max_seq(before) && max_seq(names) != 0 {
            let i = choose|i: int|
                0 <= i < before.len() && name_seq(#[trigger] before[i]) == Some(max_seq(before));
            assert(names[i] == before[i]);
        }
    }
}

/// The first byte in which two names differ decides which comes first; a name that another one
/// begins with comes before it.
pub proof fn first_difference_decides(a: Seq<u8>, b: Seq<u8>, n: int)
    requires
        0 <= n <= a.len(),
        n <= b.len(),
        a.take(n) == b.take(n),
        n < a.len() && n < b.len() ==> a[n] != b[n],
    ensures
        n == a.len() ==> not_after(a, b),
        n == b.len() && n < a.len() ==> !not_after(a, b),
        n < a.len() && n < b.len() ==> (not_after(a, b) <==> a[n] < b[n]),
    decreases n,
{
    if n > 0 {
        let (x, y) = (a.skip(1), b.skip(1));
        assert(x.take(n - 1) =~= a.take(n).skip(1));
        assert(y.take(n - 1) =~= b.take(n).skip(1));
        first_difference_decides(x, y, n - 1);
        assert(a[0] == a.take(n)[0] && b[0] == b.take(n)[0]);
    }
}

/// A file is a table if its name ends in `.sst` with something before that.
pub proof fn tables_end_in_sst(names: Seq<Seq<u8>>, name: Seq<u8>)
    ensures
        tables_of(names).contains(name) <==> {
            &&& names.contains(name)
            &&& name.len() > 4
            &&& name.skip(name.len() - 4) == seq![0x2eu8, 0x73u8, 0x73u8, 0x74u8]
        },
        tables_of(names) == names.filter(
            |file: Seq<u8>|
                file.len() > 4 && file.skip(file.len() - 4) == seq![
                    0x2eu8,
                    0x73u8,
                    0x73u8,
                    0x74u8,
                ],
        ),
{
    let is_table = |name: Seq<u8>| is_table_name(name);
    let in_sst = |file: Seq<u8>|
        file.len() > 4 && file.skip(file.len() - 4) == seq![0x2eu8, 0x73u8, 0x73u8, 0x74u8];
    assert(is_table =~= in_sst);
    if tables_of(names).contains(name) {
        names.lemma_filter_contains_rev(is_table, name);
        let i = choose|i: int| 0 <= i < tables_of(names).len() && tables_of(names)[i] == name;
        names.lemma_filter_pred(is_table, i);
    } else if names.contains(name) {
        let i = choose|i: int| 0 <= i < names.len() && names[i] == name;
        if is_table(name) {
            names.lemma_filter_contains(is_table, i);
        }
    }
}

proof fn lemma_placed_at(names: Seq<Seq<u8>>, others: Seq<Seq<u8>>, i: int)
    requires
        numbered(names).len() == others.len(),
        forall|k: int| 0 <= k < others.len() ==> has_number(#[trigger] others[k]),
        0 <= i < names.len(),
    ensures
        has_number(placed(names, others)[i]) == has_number(names[i]),
        !has_number(names[i]) ==> placed(names, others)[i] == names[i],
    decreases names.len(),
{
    reveal(Seq::filter);
    let before = names.drop_last();
    lemma_placed_len(before, others);
    lemma_placed_len(before, others.drop_last());
    if has_number(names.last()) {
        assert(has_number(others[others.len() - 1]));
        if i < before.len() {
            let fewer = others.drop_last();
            assert(forall|k: int| 0 <= k < fewer.len() ==> #[trigger] fewer[k] == others[k]);
            lemma_placed_at(before, fewer, i);
        }
    } else if i < before.len() {
        lemma_placed_at(before, others, i);
    }
}

/// Where the numbered ones among names are in order, any two of them are.
proof fn lemma_numbered_pair(names: Seq<Seq<u8>>, i: int, j: int)
    requires
        sorted_by(numbered(names), |a: Seq<u8>, b: Seq<u8>| in_order(true, a, b)),
        0 <= i < j < names.len(),
        has_number(names[i]),
        has_number(names[j]),
    ensures
        in_order(true, names[i], names[j]),
    decreases names.len(),
{
    let leq = |a: Seq<u8>, b: Seq<u8>| in_order(true, a, b);
    let with_number = |name: Seq<u8>| has_number(name);
    let before = names.drop_last();
    reveal(Seq::filter);
    assert forall|a: int, b: int| 0 <= a < b < numbered(before).len() implies #[trigger] leq(
        numbered(before)[a],
        numbered(before)[b],
    ) by {
        assert(numbered(before)[a] == numbered(names)[a]);
        assert(numbered(before)[b] == numbered(names)[b]);
        assert(leq(numbered(names)[a], numbered(names)[b]));
    }
    if j < before.len() {
        lemma_numbered_pair(before, i, j);
    } else {
        before.lemma_filter_contains(with_number, i);
        let a = choose|a: int| 0 <= a < numbered(before).len() && numbered(before)[a] == before[i];
        let b = numbered(before).len() as int;
        assert(numbered(names)[a] == names[i]);
        assert(numbered(names)[b] == names[j]);
        assert(leq(numbered(names)[a], numbered(names)[b]));
    }
}

/// Against the tables of a directory in the order of their bytes, the listing has each table
/// without a number at its place, and the others by number at the places of the others; those of
/// one number in the order of their bytes.
pub proof fn listing_has_tables_at_their_places(names: Seq<Seq<u8>>, order: Seq<Seq<u8>>)
    requires
        order.to_multiset() == tables_of(names).to_multiset(),
        forall|i: int, j: int| 0 <= i < j < order.len() ==> not_after(order[i], order[j]),
    ensures
        ({
            let files = listing(names);
            &&& files.len() == order.len()
            &&& forall|i: int|
                0 <= i < files.len() && name_seq(#[trigger] order[i]) is None ==> files[i]
                    == order[i]
            &&& forall|i: int|
                0 <= i < files.len() && name_seq(#[trigger] order[i]) is Some ==> name_seq(
                    files[i],
                ) is Some
            &&& forall|i: int, j: int|
                0 <= i < j < files.len() ==> match (
                    name_seq(#[trigger] files[i]),
                    name_seq(#[trigger] files[j]),
                ) {
                    (Some(a), Some(b)) => a < b || a == b && not_after(files[i], files[j]),
                    _ => true,
                }
        }),
{
    let leq = |a: Seq<u8>, b: Seq<u8>| in_order(false, a, b);
    let files = listing(names);
    let others = sorted_names(numbered(names), true);
    assert forall|i: int, j: int| 0 <= i < j < order.len() implies #[trigger] leq(
        order[i],
        order[j],
    ) by {}
    lemma_is_sorted_names(order, tables_of(names), false);
    lemma_places(names);
    lemma_numbered_have_numbers(names);
    lemma_placed_len(order, others);
    assert forall|i: int| 0 <= i < files.len() implies (has_number(#[trigger] order[i])
        == has_number(files[i])) && (!has_number(order[i]) ==> files[i] == order[i]) by {
        lemma_placed_at(order, others, i);
    }
    numbered_tables_are_listed_by_number(names);
    lemma_sorted_names(numbered(names), true);
    assert forall|i: int, j: int|
        0 <= i < j < files.len() && has_number(#[trigger] files[i]) && has_number(
            #[trigger] files[j],
        ) implies in_order(true, files[i], files[j]) by {
        lemma_numbered_pair(files, i, j);
    }
    assert forall|i: int, j: int| 0 <= i < j < files.len() implies match (
        name_seq(#[trigger] files[i]),
        name_seq(#[trigger] files[j]),
    ) {
        (Some(a), Some(b)) => a < b || a == b && not_after(files[i], files[j]),
        _ => true,
    } by {
        if has_number(files[i]) && has_number(files[j]) {
            assert(in_order(true, files[i], files[j]));
        }
    }
}

/// There is one view for each string, in their order.
pub proof fn views_are_the_bytes(strings: Seq<Vec<u8>>)
    ensures
        views(strings).len() == strings.len(),
        forall|i: int| 0 <= i < strings.len() ==> #[trigger] views(strings)[i] == strings[i]@,
{
}

} // verus!
