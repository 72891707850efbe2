//! File names of checkpoints, as bytes: how they are written, told apart and ordered.
use vstd::prelude::*;

verus! {

/// The fewest digits of a checkpoint number in a file name.
pub const MIN_DIGITS: usize = 8;

/// One more than the largest number that has no more digits than that.
pub const PADDED_LIMIT: u64 = 100_000_000;

/// A byte that comes after all digits.
pub const AFTER_DIGITS: u8 = 58;

/// The decimal digits of `n`, padded with zeros on the left to at least `min` digits.
pub open spec fn numeral(n: nat, min: nat) -> Seq<u8>
    decreases n + min,
{
    if n == 0 && min == 0 {
        Seq::empty()
    } else {
        numeral(
            n / 10,
            if min == 0 {
                0
            } else {
                (min - 1) as nat
            },
        ).push((48 + n % 10) as u8)
    }
}

/// `checkpoint_`
pub open spec fn prefix() -> Seq<u8> {
    seq![99u8, 104, 101, 99, 107, 112, 111, 105, 110, 116, 95]
}

/// `.json`
pub open spec fn extension() -> Seq<u8> {
    seq![46u8, 106, 115, 111, 110]
}

/// `.tmp`
pub open spec fn tmp_extension() -> Seq<u8> {
    seq![46u8, 116, 109, 112]
}

/// The name of the file that holds checkpoint `id`: `checkpoint_`, the number, `.json`.
pub open spec fn name_of(id: u64) -> Seq<u8> {
    prefix() + numeral(id as nat, MIN_DIGITS as nat) + extension()
}

/// The name of the file that checkpoint `id` is written to before it is complete.
pub open spec fn tmp_name_of(id: u64) -> Seq<u8> {
    name_of(id) + tmp_extension()
}

/// Whether a file is taken for a checkpoint: its name ends in `.json` and is more than that.
pub open spec fn is_checkpoint(name: Seq<u8>) -> bool {
    name.len() > extension().len() && name.skip(name.len() - extension().len()) == extension()
}

/// Whether `a` comes before `b` in the order of their bytes, or is the same.
pub open spec fn at_most(a: Seq<u8>, b: Seq<u8>) -> bool
    decreases a.len(),
{
    if a.len() == 0 {
        true
    } else if b.len() == 0 {
        false
    } else if a[0] != b[0] {
        a[0] < b[0]
    } else {
        at_most(a.skip(1), b.skip(1))
    }
}

/// Whether this is the name of the file of some checkpoint.
pub open spec fn is_numbered(name: Seq<u8>) -> bool {
    exists|id: u64| name == #[trigger] name_of(id)
}

/// Whether this is the name of the file of a checkpoint whose number has more digits than names
/// are padded to.
pub open spec fn is_long(name: Seq<u8>) -> bool {
    exists|id: u64| id >= PADDED_LIMIT && name == #[trigger] name_of(id)
}

/// What the file of checkpoint `id` is ordered by: its name, but for each digit beyond those
/// that names are padded to, a byte that comes after all digits goes before the number.
pub open spec fn key_of_id(id: u64) -> Seq<u8> {
    let digits = numeral(id as nat, MIN_DIGITS as nat);
    prefix() + marks((digits.len() - MIN_DIGITS) as nat) + digits + extension()
}

/// So many bytes that come after all digits.
pub open spec fn marks(n: nat) -> Seq<u8> {
    Seq::new(n, |i: int| AFTER_DIGITS)
}

/// What a name is ordered by: its bytes, but for a checkpoint's file whose number has more digits
/// than names are padded to, which by its bytes would come before those with lower numbers.
pub open spec fn sort_key(name: Seq<u8>) -> Seq<u8> {
    if is_long(name) {
        key_of_id(choose|id: u64| id >= PADDED_LIMIT && name == #[trigger] name_of(id))
    } else {
        name
    }
}

/// Whether `a` comes before `b` in the order of the files, or is the same.
pub open spec fn no_later(a: Seq<u8>, b: Seq<u8>) -> bool {
    if sort_key(a) == sort_key(b) {
        at_most(a, b)
    } else {
        at_most(sort_key(a), sort_key(b))
    }
}

/// Whether names stand in ascending order.
pub open spec fn sorted(names: Seq<Seq<u8>>) -> bool {
    forall|i: int, j: int|
        #![trigger names[i], names[j]]
        0 <= i < j < names.len() ==> no_later(names[i], names[j])
}

/// Names as the bytes they are made of.
pub open spec fn bytes_of(names: Seq<Vec<u8>>) -> Seq<Seq<u8>> {
    names.map_values(|name: Vec<u8>| name@)
}

/// Whether `listed` are the checkpoints among the files `found`, in ascending order.
pub open spec fn lists_checkpoints(found: Seq<Seq<u8>>, listed: Seq<Seq<u8>>) -> bool {
    &&& sorted(listed)
    &&& listed.to_multiset() == found.filter(|name: Seq<u8>| is_checkpoint(name)).to_multiset()
}

pub proof fn lemma_at_most_reflexive(a: Seq<u8>)
    ensures
        at_most(a, a),
    decreases a.len(),
{
    if a.len() > 0 {
        lemma_at_most_reflexive(a.skip(1));
    }
}

proof fn lemma_at_most_total(a: Seq<u8>, b: Seq<u8>)
    ensures
        at_most(a, b) || at_most(b, a),
    decreases a.len(),
{
    if a.len() > 0 && b.len() > 0 && a[0] == b[0] {
        lemma_at_most_total(a.skip(1), b.skip(1));
    }
}

proof fn lemma_at_most_antisymmetric(a: Seq<u8>, b: Seq<u8>)
    requires
        at_most(a, b),
        at_most(b, a),
    ensures
        a == b,
    decreases a.len(),
{
    if a.len() > 0 {
        lemma_at_most_antisymmetric(a.skip(1), b.skip(1));
        assert(a =~= seq![a[0]] + a.skip(1));
        assert(b =~= seq![b[0]] + b.skip(1));
    } else {
        assert(a =~= b);
    }
}

proof fn lemma_at_most_transitive(a: Seq<u8>, b: Seq<u8>, c: Seq<u8>)
    requires
        at_most(a, b),
        at_most(b, c),
    ensures
        at_most(a, c),
    decreases a.len(),
{
    if a.len() > 0 && a[0] == b[0] && b[0] == c[0] {
        lemma_at_most_transitive(a.skip(1), b.skip(1), c.skip(1));
    }
}

/// What comes after the same bytes decides the order.
proof fn lemma_at_most_same_start(start: Seq<u8>, a: Seq<u8>, b: Seq<u8>)
    ensures
        at_most(start + a, start + b) == at_most(a, b),
    decreases start.len(),
{
    if start.len() == 0 {
        assert(start + a =~= a);
        assert(start + b =~= b);
    } else {
        lemma_at_most_same_start(start.skip(1), a, b);
        assert((start + a).skip(1) =~= start.skip(1) + a);
        assert((start + b).skip(1) =~= start.skip(1) + b);
    }
}

/// Different starts of the same length decide the order, whatever comes after.
proof fn lemma_at_most_different_start(p: Seq<u8>, q: Seq<u8>, a: Seq<u8>, b: Seq<u8>)
    requires
        p.len() == q.len(),
        p != q,
        at_most(p, q),
    ensures
        at_most(p + a, q + b),
        p + a != q + b,
    decreases p.len(),
{
    if p.len() == 0 {
        assert(p =~= q);
    } else {
        assert((p + a)[0] == p[0] && (q + b)[0] == q[0]);
        if p[0] == q[0] {
            assert(p =~= seq![p[0]] + p.skip(1));
            assert(q =~= seq![q[0]] + q.skip(1));
            lemma_at_most_different_start(p.skip(1), q.skip(1), a, b);
            assert((p + a).skip(1) =~= p.skip(1) + a);
            assert((q + b).skip(1) =~= q.skip(1) + b);
        }
    }
}

pub open spec fn ten_to(k: nat) -> nat {
    vstd::arithmetic::power::pow(10, k) as nat
}

proof fn lemma_ten_to(k: nat)
    ensures
        ten_to(k) >= 1,
        k > 0 ==> ten_to(k) == 10 * ten_to((k - 1) as nat),
        ten_to(0) == 1,
{
    vstd::arithmetic::power::lemma_pow_positive(10, k);
    vstd::arithmetic::power::lemma_pow0(10);
    if k > 0 {
        vstd::arithmetic::power::lemma_pow_positive(10, (k - 1) as nat);
        reveal(vstd::arithmetic::power::pow);
    }
}

proof fn lemma_numeral_len(n: nat, min: nat)
    ensures
        numeral(n, min).len() >= min,
        numeral(n, min).len() == min <==> n < ten_to(min),
    decreases n + min,
{
    lemma_ten_to(min);
    if n > 0 || min > 0 {
        let m = if min == 0 {
            0
        } else {
            (min - 1) as nat
        };
        lemma_numeral_len(n / 10, m);
    }
}

/// The number that decimal digits stand for.
pub open spec fn value(digits: Seq<u8>) -> int
    decreases digits.len(),
{
    if digits.len() == 0 {
        0
    } else {
        value(digits.drop_last()) * 10 + (digits.last() - 48)
    }
}

/// Whether these are decimal digits.
pub open spec fn all_digits(digits: Seq<u8>) -> bool {
    forall|i: int| 0 <= i < digits.len() ==> 48 <= #[trigger] digits[i] <= 57
}

/// A numeral stands for the number that it was made from.
pub proof fn law_numerals_read_back(n: nat, min: nat)
    ensures
        value(numeral(n, min)) == n,
        all_digits(numeral(n, min)),
    decreases n + min,
{
    if n > 0 || min > 0 {
        let fewer = if min == 0 {
            0
        } else {
            (min - 1) as nat
        };
        law_numerals_read_back(n / 10, fewer);
        assert(numeral(n, min).drop_last() =~= numeral(n / 10, fewer));
    }
}

/// More digits never stand for less.
proof fn lemma_value_grows(digits: Seq<u8>, i: int)
    requires
        all_digits(digits),
        0 <= i <= digits.len(),
    ensures
        0 <= value(digits.take(i)) <= value(digits),
    decreases digits.len(),
{
    if i < digits.len() {
        let rest = digits.drop_last();
        assert(all_digits(rest)) by {
            assert forall|k: int| 0 <= k < rest.len() implies 48 <= #[trigger] rest[k] <= 57 by {
                assert(rest[k] == digits[k]);
            }
        }
        lemma_value_grows(rest, i);
        assert(rest.take(i) =~= digits.take(i));
        assert(digits[digits.len() - 1] == digits.last());
    } else {
        assert(digits.take(i) =~= digits);
        if i > 0 {
            let rest = digits.drop_last();
            assert(all_digits(rest)) by {
                assert forall|k: int| 0 <= k < rest.len() implies 48 <= #[trigger] rest[k]
                    <= 57 by {
                    assert(rest[k] == digits[k]);
                }
            }
            lemma_value_grows(rest, rest.len() as int);
            assert(rest.take(rest.len() as int) =~= rest);
            assert(digits[digits.len() - 1] == digits.last());
        }
    }
}

/// What stands between the start and the end of a checkpoint's name is its number.
proof fn lemma_middle(id: u64)
    ensures
        name_of(id).len() >= 24,
        name_of(id).subrange(11, name_of(id).len() - 5) == numeral(id as nat, MIN_DIGITS as nat),
        value(numeral(id as nat, MIN_DIGITS as nat)) == id,
        all_digits(numeral(id as nat, MIN_DIGITS as nat)),
{
    let digits = numeral(id as nat, MIN_DIGITS as nat);
    lemma_numeral_len(id as nat, MIN_DIGITS as nat);
    law_numerals_read_back(id as nat, MIN_DIGITS as nat);
    assert(name_of(id).subrange(11, name_of(id).len() - 5) =~= digits);
}

/// No two checkpoints share a name.
pub proof fn law_names_differ(a: u64, b: u64)
    ensures
        name_of(a) == name_of(b) <==> a == b,
{
    lemma_middle(a);
    lemma_middle(b);
}

/// A number that fits into the padding is ordered by its name, and so by what any number is.
proof fn lemma_key_of_numbered(id: u64)
    ensures
        sort_key(name_of(id)) == key_of_id(id),
        is_long(name_of(id)) == (id >= PADDED_LIMIT),
{
    let m = MIN_DIGITS as nat;
    lemma_padded_limit();
    lemma_numeral_len(id as nat, m);
    assert forall|k: u64| name_of(id) == #[trigger] name_of(k) implies k == id by {
        law_names_differ(id, k);
    }
    if id >= PADDED_LIMIT {
        assert(is_long(name_of(id)));
    } else {
        let digits = numeral(id as nat, m);
        assert(prefix() + marks(0) + digits + extension() =~= name_of(id));
    }
}

proof fn lemma_padded_limit()
    ensures
        ten_to(MIN_DIGITS as nat) == PADDED_LIMIT,
{
    reveal_with_fuel(vstd::arithmetic::power::pow, 9);
}

/// A number has no more digits than a greater one, and with as many it is ordered as it is.
proof fn lemma_numerals_grow(a: nat, b: nat, min: nat)
    requires
        a < b,
    ensures
        numeral(a, min).len() <= numeral(b, min).len(),
        numeral(a, min).len() == numeral(b, min).len() ==> at_most(numeral(a, min), numeral(b, min))
            && numeral(a, min) != numeral(b, min),
    decreases b + min,
{
    let fewer = if min == 0 {
        0
    } else {
        (min - 1) as nat
    };
    let (p, q) = (numeral(a / 10, fewer), numeral(b / 10, fewer));
    let (x, y) = (seq![(48 + a % 10) as u8], seq![(48 + b % 10) as u8]);
    assert(numeral(b, min) =~= q + y);
    if a == 0 && min == 0 {
    } else {
        assert(numeral(a, min) =~= p + x);
        if a / 10 < b / 10 {
            lemma_numerals_grow(a / 10, b / 10, fewer);
            if p.len() == q.len() {
                lemma_at_most_different_start(p, q, x, y);
            }
        } else {
            lemma_at_most_same_start(p, x, y);
            reveal_with_fuel(at_most, 2);
            assert((p + x).last() != (q + y).last());
        }
    }
}

/// The files of checkpoints are ordered as their numbers are.
pub proof fn law_names_keep_order(a: u64, b: u64)
    requires
        a < b,
    ensures
        no_later(name_of(a), name_of(b)),
        !no_later(name_of(b), name_of(a)),
        name_of(a) != name_of(b),
{
    let m = MIN_DIGITS as nat;
    lemma_key_of_numbered(a);
    lemma_key_of_numbered(b);
    law_names_differ(a, b);
    law_numerals_read_back(a as nat, m);
    lemma_numeral_len(a as nat, m);
    lemma_numeral_len(b as nat, m);
    lemma_numerals_grow(a as nat, b as nat, m);
    let (p, q) = (numeral(a as nat, m), numeral(b as nat, m));
    let (j, k) = (marks((p.len() - m) as nat), marks((q.len() - m) as nat));
    let (x, y) = (key_of_id(a), key_of_id(b));
    let start = prefix() + j;
    let (s, t) = (p + extension(), k.skip(j.len() as int) + q + extension());
    assert(x =~= start + s);
    assert(y =~= start + t);
    lemma_at_most_same_start(start, s, t);
    if p.len() == q.len() {
        lemma_at_most_different_start(p, q, extension(), extension());
        assert(t =~= q + extension());
    } else {
        assert(t[0] == AFTER_DIGITS);
        assert(s[0] == p[0]);
    }
    if x == y {
        assert(x.skip(start.len() as int) =~= s);
        assert(y.skip(start.len() as int) =~= t);
    }
    if at_most(y, x) {
        lemma_at_most_antisymmetric(x, y);
    }
}

/// Where no number has more digits than names are padded to, files are ordered by the bytes of
/// their names alone.
pub proof fn law_order_is_that_of_the_names(a: Seq<u8>, b: Seq<u8>)
    requires
        forall|id: u64| id >= 100_000_000 ==> a != #[trigger] name_of(id) && b != name_of(id),
    ensures
        no_later(a, b) == at_most(a, b),
{
}

/// Where no number found has more digits than names are padded to, the checkpoints are listed in
/// the order of their names' bytes.
pub proof fn law_lists_in_the_order_of_names(found: Seq<Seq<u8>>, listed: Seq<Seq<u8>>)
    requires
        lists_checkpoints(found, listed),
        forall|id: u64| id >= 100_000_000 ==> !found.contains(#[trigger] name_of(id)),
    ensures
        forall|i: int, j: int|
            #![trigger listed[i], listed[j]]
            0 <= i < j < listed.len() ==> at_most(listed[i], listed[j]),
{
    assert forall|i: int, j: int|
        #![trigger listed[i], listed[j]]
        0 <= i < j < listed.len() implies at_most(listed[i], listed[j]) by {
        assert(listed.contains(listed[i]) && listed.contains(listed[j]));
        law_lists_what_was_found(found, listed, listed[i]);
        law_lists_what_was_found(found, listed, listed[j]);
        assert(no_later(listed[i], listed[j]));
    }
}

pub proof fn lemma_no_later_reflexive(a: Seq<u8>)
    ensures
        no_later(a, a),
{
    lemma_at_most_reflexive(a);
}

proof fn lemma_no_later_total(a: Seq<u8>, b: Seq<u8>)
    ensures
        no_later(a, b) || no_later(b, a),
{
    lemma_at_most_total(a, b);
    lemma_at_most_total(sort_key(a), sort_key(b));
}

pub proof fn lemma_no_later_antisymmetric(a: Seq<u8>, b: Seq<u8>)
    requires
        no_later(a, b),
        no_later(b, a),
    ensures
        a == b,
{
    if sort_key(a) == sort_key(b) {
        lemma_at_most_antisymmetric(a, b);
    } else {
        lemma_at_most_antisymmetric(sort_key(a), sort_key(b));
    }
}

proof fn lemma_no_later_transitive(a: Seq<u8>, b: Seq<u8>, c: Seq<u8>)
    requires
        no_later(a, b),
        no_later(b, c),
    ensures
        no_later(a, c),
{
    let (x, y, z) = (sort_key(a), sort_key(b), sort_key(c));
    if x == y && y == z {
        lemma_at_most_transitive(a, b, c);
    } else if x != y && y != z {
        lemma_at_most_transitive(x, y, z);
        if x == z {
            lemma_at_most_antisymmetric(x, y);
        }
    }
}

/// The file of a checkpoint is taken for one, and the file that it is first written to is not:
/// one that was left half written is never loaded.
pub proof fn law_only_complete_files_count(id: u64)
    ensures
        is_checkpoint(name_of(id)),
        !is_checkpoint(tmp_name_of(id)),
{
    let name = name_of(id);
    assert(name.skip(name.len() - 5) =~= extension());
    let tmp = tmp_name_of(id);
    assert(tmp.last() == 112u8);
    if is_checkpoint(tmp) {
        assert(tmp.skip(tmp.len() - 5).last() == 110u8);
    }
}

/// The name of a checkpoint's file is `checkpoint_`, then its number in decimal digits, of which
/// there are at least eight and more only where the number has more, then `.json`; the file that it
/// is first written to has `.tmp` behind that.
pub proof fn law_names_are_written_out(id: u64)
    ensures
        ({
            let (name, n) = (name_of(id), name_of(id).len());
            let digits = name.subrange(11, n - 5);
            &&& n >= 11 + 8 + 5
            &&& name.take(11) == seq![99u8, 104, 101, 99, 107, 112, 111, 105, 110, 116, 95]
            &&& name.skip(n - 5) == seq![46u8, 106, 115, 111, 110]
            &&& forall|i: int| 0 <= i < digits.len() ==> 48 <= #[trigger] digits[i] <= 57
            &&& value(digits) == id
            &&& n > 11 + 8 + 5 <==> id >= 100_000_000
            &&& tmp_name_of(id) == name + seq![46u8, 116, 109, 112]
        }),
{
    lemma_middle(id);
    lemma_padded_limit();
    let (name, n) = (name_of(id), name_of(id).len());
    lemma_numeral_len(id as nat, MIN_DIGITS as nat);
    assert(name.take(11) =~= seq![99u8, 104, 101, 99, 107, 112, 111, 105, 110, 116, 95]);
    assert(name.skip(n - 5) =~= seq![46u8, 106, 115, 111, 110]);
}

/// A file is taken for a checkpoint exactly if its name is something followed by `.json`.
pub proof fn law_checkpoints_end_in_json(stem: Seq<u8>, name: Seq<u8>)
    ensures
        is_checkpoint(stem + seq![46u8, 106, 115, 111, 110]) <==> stem.len() > 0,
        is_checkpoint(name) ==> name.len() > 5 && name == name.take(name.len() - 5) + seq![
            46u8,
            106,
            115,
            111,
            110,
        ],
{
    let end = seq![46u8, 106, 115, 111, 110];
    assert((stem + end).skip(stem.len() as int) =~= extension());
    if is_checkpoint(name) {
        assert(name =~= name.take(name.len() - 5) + name.skip(name.len() - 5));
    }
}

/// Names are in the order of a dictionary: at the first byte in which two differ the lesser one
/// comes first, and where there is none the shorter one.
pub proof fn law_order_of_bytes(a: Seq<u8>, b: Seq<u8>, i: int)
    requires
        0 <= i <= a.len(),
        i <= b.len(),
        a.take(i) == b.take(i),
    ensures
        i < a.len() && i < b.len() && a[i] != b[i] ==> (at_most(a, b) <==> a[i] < b[i]),
        i == a.len() ==> at_most(a, b),
        i == b.len() && i < a.len() ==> !at_most(a, b),
    decreases i,
{
    if i > 0 {
        assert(a.take(i)[0] == a[0] && b.take(i)[0] == b[0]);
        assert(a.skip(1).take(i - 1) =~= a.take(i).skip(1));
        assert(b.skip(1).take(i - 1) =~= b.take(i).skip(1));
        law_order_of_bytes(a.skip(1), b.skip(1), i - 1);
    }
}

/// There is only one list of the checkpoints among given files.
pub proof fn law_one_list(found: Seq<Seq<u8>>, a: Seq<Seq<u8>>, b: Seq<Seq<u8>>)
    requires
        lists_checkpoints(found, a),
        lists_checkpoints(found, b),
    ensures
        a == b,
{
    lemma_sorted_is_unique(a, b);
}

proof fn lemma_sorted_is_unique(a: Seq<Seq<u8>>, b: Seq<Seq<u8>>)
    requires
        sorted(a),
        sorted(b),
        a.to_multiset() == b.to_multiset(),
    ensures
        a == b,
    decreases a.len(),
{
    broadcast use vstd::seq_lib::group_to_multiset_ensures;

    assert(a.len() == a.to_multiset().len() && b.len() == b.to_multiset().len());
    if a.len() > 0 {
        let (x, y) = (a.last(), b.last());
        assert(a.to_multiset().contains(x) && b.to_multiset().contains(y));
        assert(b.contains(x) && a.contains(y));
        let i = b.index_of(x);
        let j = a.index_of(y);
        lemma_no_later_reflexive(x);
        lemma_no_later_reflexive(y);
        lemma_no_later_antisymmetric(x, y);
        assert(a.drop_last() =~= a.remove(a.len() - 1));
        assert(b.drop_last() =~= b.remove(b.len() - 1));
        assert(a.drop_last().to_multiset() =~= b.drop_last().to_multiset());
        lemma_sorted_is_unique(a.drop_last(), b.drop_last());
        assert(a =~= a.drop_last().push(x));
        assert(b =~= b.drop_last().push(y));
    } else {
        assert(a =~= b);
    }
}

proof fn lemma_filtered_was_there<T>(s: Seq<T>, pred: spec_fn(T) -> bool, x: T)
    requires
        s.filter(pred).contains(x),
    ensures
        s.contains(x),
        pred(x),
    decreases s.len(),
{
    reveal(Seq::filter);
    if s.len() > 0 {
        let before = s.drop_last();
        if before.filter(pred).contains(x) {
            lemma_filtered_was_there(before, pred, x);
            let i = before.index_of(x);
            assert(s[i] == x);
        } else {
            let i = s.filter(pred).index_of(x);
            assert(i == before.filter(pred).len());
            assert(s.last() == x);
        }
    }
}

/// What is listed is what was found and is taken for a checkpoint.
pub proof fn law_lists_what_was_found(found: Seq<Seq<u8>>, listed: Seq<Seq<u8>>, name: Seq<u8>)
    requires
        lists_checkpoints(found, listed),
    ensures
        listed.contains(name) <==> found.contains(name) && is_checkpoint(name),
{
    broadcast use vstd::seq_lib::group_to_multiset_ensures;
    broadcast use vstd::seq_lib::group_filter_ensures;

    let checkpoints = found.filter(|n: Seq<u8>| is_checkpoint(n));
    assert(listed.contains(name) <==> listed.to_multiset().contains(name));
    assert(checkpoints.contains(name) <==> checkpoints.to_multiset().contains(name));
    if found.contains(name) && is_checkpoint(name) {
        let i = found.index_of(name);
        assert(is_checkpoint(found[i]));
    }
    if checkpoints.contains(name) {
        lemma_filtered_was_there(found, |n: Seq<u8>| is_checkpoint(n), name);
    }
}

/// A checkpoint whose name comes after that of every other one is the last of the list.
pub proof fn law_greatest_is_last(found: Seq<Seq<u8>>, listed: Seq<Seq<u8>>, name: Seq<u8>)
    requires
        lists_checkpoints(found, listed),
        found.contains(name),
        is_checkpoint(name),
        forall|other: Seq<u8>|
            #[trigger] found.contains(other) && is_checkpoint(other) ==> no_later(other, name),
    ensures
        listed.len() > 0,
        listed.last() == name,
{
    law_lists_what_was_found(found, listed, name);
    let last = listed.last();
    let i = listed.index_of(name);
    assert(listed[listed.len() - 1] == last);
    assert(listed.contains(last));
    law_lists_what_was_found(found, listed, last);
    lemma_no_later_reflexive(name);
    assert(no_later(name, last));
    lemma_no_later_antisymmetric(name, last);
}

fn write_numeral(n: u64, min: usize, out: &mut Vec<u8>)
    ensures
        final(out)@ == old(out)@ + numeral(n as nat, min as nat),
    decreases n + min,
{
    if n > 0 || min > 0 {
        let fewer: usize = if min == 0 {
            0
        } else {
            min - 1
        };
        write_numeral(n / 10, fewer, out);
        out.push(48 + (n % 10) as u8);
        assert(out@ =~= old(out)@ + numeral(n as nat, min as nat));
    } else {
        assert(out@ =~= old(out)@ + numeral(n as nat, min as nat));
    }
}

/// The name of the file that holds checkpoint `id`.
pub fn file_name(id: u64) -> (name: Vec<u8>)
    ensures
        name@ == name_of(id),
{
    let mut name: Vec<u8> = vec![99u8, 104, 101, 99, 107, 112, 111, 105, 110, 116, 95];
    assert(name@ =~= prefix());
    write_numeral(id, MIN_DIGITS, &mut name);
    let mut rest: Vec<u8> = vec![46u8, 106, 115, 111, 110];
    assert(rest@ =~= extension());
    name.append(&mut rest);
    name
}

/// The name of the file that checkpoint `id` is written to before it is complete.
pub fn tmp_file_name(id: u64) -> (name: Vec<u8>)
    ensures
        name@ == tmp_name_of(id),
{
    let mut name = file_name(id);
    let mut rest: Vec<u8> = vec![46u8, 116, 109, 112];
    assert(rest@ =~= tmp_extension());
    name.append(&mut rest);
    name
}

/// Whether a file is taken for a checkpoint.
pub fn is_checkpoint_file(name: &Vec<u8>) -> (yes: bool)
    ensures
        yes == is_checkpoint(name@),
{
    let n: usize = name.len();
    if n <= 5 {
        return false;
    }
    let ghost end = name@.skip(n - 5);
    if name[n - 5] == 46 && name[n - 4] == 106 && name[n - 3] == 115 && name[n - 2] == 111
        && name[n - 1] == 110 {
        assert(end =~= extension());
        true
    } else {
        proof {
            if end == extension() {
                assert(end[0] == 46 && end[1] == 106 && end[2] == 115 && end[3] == 111 && end[4]
                    == 110);
            }
        }
        false
    }
}

/// Whether `a` comes before `b` in the order of their bytes, or is the same.
fn is_at_most(a: &Vec<u8>, b: &Vec<u8>) -> (yes: bool)
    ensures
        yes == at_most(a@, b@),
{
    let mut i: usize = 0;
    assert(a@.skip(0) =~= a@ && b@.skip(0) =~= b@);
    while i < a.len() && i < b.len()
        invariant
            i <= a@.len(),
            i <= b@.len(),
            at_most(a@, b@) == at_most(a@.skip(i as int), b@.skip(i as int)),
        decreases a@.len() - i,
    {
        if a[i] != b[i] {
            return a[i] < b[i];
        }
        assert(a@.skip(i as int).skip(1) =~= a@.skip(i + 1));
        assert(b@.skip(i as int).skip(1) =~= b@.skip(i + 1));
        i = i + 1;
    }
    i == a.len()
}

/// Whether two names are the same.
fn same_bytes(a: &Vec<u8>, b: &Vec<u8>) -> (same: bool)
    ensures
        same == (a@ == b@),
{
    if a.len() != b.len() {
        return false;
    }
    for i in 0..a.len()
        invariant
            a@.len() == b@.len(),
            forall|k: int| 0 <= k < i ==> a@[k] == b@[k],
    {
        if a[i] != b[i] {
            return false;
        }
    }
    assert(a@ =~= b@);
    true
}

/// The number of the checkpoint whose file has this name, if it is that of a checkpoint.
pub fn id_of(name: &Vec<u8>) -> (id: Option<u64>)
    ensures
        match id {
            Some(id) => name@ == name_of(id),
            None => !is_numbered(name@),
        },
{
    let n: usize = name.len();
    if n < 24 {
        proof {
            assert forall|k: u64| name@ != #[trigger] name_of(k) by {
                lemma_middle(k);
            }
        }
        return None;
    }
    let ghost middle = name@.subrange(11, n - 5);
    let mut id: u64 = 0;
    let mut i: usize = 11;
    assert(middle.take(0) =~= Seq::empty());
    while i < n - 5
        invariant
            n == name@.len(),
            24 <= n,
            11 <= i <= n - 5,
            middle == name@.subrange(11, n - 5),
            id == value(middle.take(i - 11)),
        decreases n - i,
    {
        let digit: u8 = name[i];
        assert(middle[i - 11] == digit);
        proof {
            assert(middle.take(i - 10).drop_last() =~= middle.take(i - 11));
            assert(middle.take(i - 10).last() == digit);
            assert forall|k: u64| name@ == #[trigger] name_of(k) implies 48 <= digit <= 57
                && value(middle.take(i - 10)) <= u64::MAX by {
                lemma_middle(k);
                lemma_value_grows(middle, i - 10);
            }
        }
        if digit < 48 || digit > 57 {
            return None;
        }
        let next: u128 = id as u128 * 10 + (digit - 48) as u128;
        if next > u64::MAX as u128 {
            return None;
        }
        id = next as u64;
        i = i + 1;
    }
    assert(middle.take(n - 16) =~= middle);
    proof {
        assert forall|k: u64| name@ == #[trigger] name_of(k) implies k == id by {
            lemma_middle(k);
        }
    }
    if same_bytes(name, &file_name(id)) {
        Some(id)
    } else {
        None
    }
}

fn copy_of(name: &Vec<u8>) -> (copy: Vec<u8>)
    ensures
        copy@ == name@,
{
    let mut copy: Vec<u8> = Vec::new();
    copy.extend_from_slice(name.as_slice());
    assert(copy@ =~= name@);
    copy
}

/// What a name is ordered by.
fn key_of(name: &Vec<u8>) -> (key: Vec<u8>)
    ensures
        key@ == sort_key(name@),
{
    match id_of(name) {
        Some(id) => {
            proof {
                lemma_key_of_numbered(id);
                lemma_middle(id);
            }
            let mut key: Vec<u8> = vec![99u8, 104, 101, 99, 107, 112, 111, 105, 110, 116, 95];
            assert(key@ =~= prefix() + marks(0));
            let extra: usize = name.len() - 24;
            for i in 0..extra
                invariant
                    key@ == prefix() + marks(i as nat),
            {
                key.push(AFTER_DIGITS);
                assert(key@ =~= prefix() + marks((i + 1) as nat));
            }
            write_numeral(id, MIN_DIGITS, &mut key);
            let mut rest: Vec<u8> = vec![46u8, 106, 115, 111, 110];
            assert(rest@ =~= extension());
            key.append(&mut rest);
            key
        },
        None => copy_of(name),
    }
}

/// Whether `a` comes before `b` in the order of the files, or is the same.
fn is_no_later(a: &Vec<u8>, b: &Vec<u8>) -> (yes: bool)
    ensures
        yes == no_later(a@, b@),
{
    let (x, y) = (key_of(a), key_of(b));
    if same_bytes(&x, &y) {
        is_at_most(a, b)
    } else {
        is_at_most(&x, &y)
    }
}

/// Adds a name where its order puts it.
fn insert_sorted(names: &mut Vec<Vec<u8>>, name: Vec<u8>)
    requires
        sorted(bytes_of(old(names)@)),
    ensures
        sorted(bytes_of(final(names)@)),
        bytes_of(final(names)@).to_multiset() == bytes_of(old(names)@).to_multiset().insert(name@),
{
    let ghost before = bytes_of(names@);
    let ghost added = name@;
    let mut at: usize = names.len();
    while at > 0 && !is_no_later(&names[at - 1], &name)
        invariant
            at <= names@.len(),
            added == name@,
            before == bytes_of(names@),
            forall|k: int| at <= k < before.len() ==> !no_later(#[trigger] before[k], added),
        decreases at,
    {
        at = at - 1;
    }
    names.insert(at, name);
    proof {
        broadcast use vstd::seq_lib::group_to_multiset_ensures;

        let after = bytes_of(names@);
        assert(after =~= before.insert(at as int, added));
        assert forall|i: int, j: int|
            #![trigger after[i], after[j]]
            0 <= i < j < after.len() implies no_later(after[i], after[j]) by {
            if i == at {
                lemma_no_later_total(before[j - 1], added);
            } else if j == at {
                if i < at - 1 {
                    lemma_no_later_transitive(before[i], before[at - 1], added);
                }
            } else {
                let x = if i < at {
                    i
                } else {
                    i - 1
                };
                let y = if j < at {
                    j
                } else {
                    j - 1
                };
                assert(no_later(before[x], before[y]));
            }
        }
    }
}

/// The checkpoints among the files found, in ascending order.
pub fn list_checkpoints(found: Vec<Vec<u8>>) -> (listed: Vec<Vec<u8>>)
    ensures
        lists_checkpoints(bytes_of(found@), bytes_of(listed@)),
{
    let ghost pred = |name: Seq<u8>| is_checkpoint(name);
    let ghost all = bytes_of(found@);
    let mut listed: Vec<Vec<u8>> = Vec::new();
    proof {
        reveal(Seq::filter);
        assert(bytes_of(listed@) =~= Seq::empty());
        assert(all.take(0).filter(pred) =~= Seq::empty());
    }
    for i in 0..found.len()
        invariant
            all == bytes_of(found@),
            pred == (|name: Seq<u8>| is_checkpoint(name)),
            sorted(bytes_of(listed@)),
            bytes_of(listed@).to_multiset() == all.take(i as int).filter(pred).to_multiset(),
    {
        proof {
            broadcast use vstd::seq_lib::group_to_multiset_ensures;

            reveal(Seq::filter);
            assert(all.take(i + 1).drop_last() =~= all.take(i as int));
            assert(all.take(i + 1).last() == found@[i as int]@);
        }
        if is_checkpoint_file(&found[i]) {
            insert_sorted(&mut listed, copy_of(&found[i]));
        }
    }
    assert(all.take(found@.len() as int) =~= all);
    listed
}

} // verus!
