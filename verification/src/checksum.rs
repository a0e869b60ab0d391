//! The internet checksum: ones'-complement sums of big-endian 16-bit words.

use vstd::prelude::*;

use crate::wire::{be16, put16, rd16};

verus! {

/// The 16-bit ones'-complement representative of a sum: carries are added back in at
/// the bottom. Only the empty sum gives zero.
pub open spec fn fold16(n: int) -> int {
    if n == 0 {
        0
    } else {
        (n - 1) % 65535 + 1
    }
}

/// The sum of the big-endian words of `s`; an odd last byte is padded with zero.
pub open spec fn word_sum(s: Seq<u8>) -> int
    decreases s.len(),
{
    if s.len() == 0 {
        0
    } else if s.len() == 1 {
        s[0] as int * 256
    } else {
        be16(s, 0) as int + word_sum(s.skip(2))
    }
}

/// The checksum of a sum of words.
pub open spec fn checksum_of(sum: int) -> int {
    65535 - fold16(sum)
}

/// What a list of `(old, new)` word changes adds, up to end-around carries.
pub open spec fn change_sum(changes: Seq<(u16, u16)>) -> int
    decreases changes.len(),
{
    if changes.len() == 0 {
        0
    } else {
        change_sum(changes.drop_last()) + (65535 - changes.last().0) + changes.last().1
    }
}

/// A checksum brought up to date for `changes` without the data.
pub open spec fn incremental(old_check: int, changes: Seq<(u16, u16)>) -> int {
    65535 - fold16(65535 - old_check + change_sum(changes))
}

pub(crate) proof fn lemma_fold_range(n: int)
    requires
        n >= 0,
    ensures
        0 <= fold16(n) <= 65535,
        fold16(n) == 0 <==> n == 0,
        n <= 65535 ==> fold16(n) == n,
{
}

/// Adding the carries back in leaves the representative as it is.
pub(crate) proof fn lemma_fold_step(n: int)
    requires
        n >= 0,
    ensures
        fold16(n % 65536 + n / 65536) == fold16(n),
        n >= 65536 ==> n % 65536 + n / 65536 < n,
{
    lemma_fold_shift(n % 65536 + n / 65536, n / 65536);
    assert(n == n % 65536 + n / 65536 + 65535 * (n / 65536));
}

/// A multiple of 65535 makes no difference to a sum that is not empty.
pub(crate) proof fn lemma_fold_shift(n: int, k: int)
    requires
        n >= 0,
        k >= 0,
    ensures
        n > 0 || k == 0 ==> fold16(n + 65535 * k) == fold16(n),
        k > 0 ==> fold16(65535 * k) == 65535,
{
    assert((n - 1 + 65535 * k) % 65535 == (n - 1) % 65535);
    if k > 0 {
        assert((65535 * k - 1) % 65535 == 65534) by {
            assert((65534 + 65535 * (k - 1)) % 65535 == 65534int % 65535);
        }
    }
}

/// Folding early or late makes no difference.
pub(crate) proof fn lemma_fold_add(a: int, b: int)
    requires
        a >= 0,
        b >= 0,
    ensures
        fold16(fold16(a) + b) == fold16(a + b),
{
    if a > 0 {
        let k = (a - 1) / 65535;
        assert(a == fold16(a) + 65535 * k);
        lemma_fold_shift(fold16(a) + b, k);
    }
}

pub(crate) proof fn lemma_word_sum_bound(s: Seq<u8>)
    ensures
        0 <= word_sum(s) <= 65535 * ((s.len() as int + 1) / 2),
    decreases s.len(),
{
    if s.len() > 1 {
        lemma_word_sum_bound(s.skip(2));
    }
}

/// Sums of consecutive pieces add up, as long as the first ends on a word boundary.
pub(crate) proof fn lemma_word_sum_concat(a: Seq<u8>, b: Seq<u8>)
    requires
        a.len() % 2 == 0,
    ensures
        word_sum(a + b) == word_sum(a) + word_sum(b),
    decreases a.len(),
{
    if a.len() == 0 {
        assert(a + b =~= b);
    } else {
        assert((a + b).skip(2) =~= a.skip(2) + b);
        lemma_word_sum_concat(a.skip(2), b);
    }
}

/// Replacing one word changes the sum by the difference.
pub(crate) proof fn lemma_word_sum_put(s: Seq<u8>, i: int, v: u16)
    requires
        0 <= i,
        i + 1 < s.len(),
        i % 2 == 0,
    ensures
        word_sum(put16(s, i, v)) == word_sum(s) - be16(s, i) + v,
    decreases i,
{
    let t = put16(s, i, v);
    if i == 0 {
        assert(t.skip(2) =~= s.skip(2));
    } else {
        assert(t.skip(2) =~= put16(s.skip(2), i - 2, v));
        lemma_word_sum_put(s.skip(2), i - 2, v);
    }
}

/// Ones'-complement 16-bit addition with end-around carry.
pub fn add1c(a: u16, b: u16) -> (r: u16)
    ensures
        r == fold16(a + b),
{
    let s: u32 = a as u32 + b as u32;
    proof {
        lemma_fold_step(s as int);
        lemma_fold_range(s % 0x1_0000 + s / 0x1_0000);
    }
    (s % 0x1_0000 + s / 0x1_0000) as u16
}

/// The checksum of `data` from scratch.
pub fn checksum_full(data: &[u8]) -> (r: u16)
    ensures
        r == checksum_of(word_sum(data@)),
{
    let n: usize = data.len();
    let mut acc: u16 = 0;
    let mut i: usize = 0;
    assert(data@.take(0) =~= Seq::<u8>::empty());
    while i + 1 < n
        invariant
            i <= n,
            n == data@.len(),
            n <= usize::MAX,
            i % 2 == 0,
            i < usize::MAX,
            acc == fold16(word_sum(data@.take(i as int))),
        decreases n - i,
    {
        let w: u16 = rd16(data, i);
        proof {
            let head = data@.take(i as int);
            let word = data@.subrange(i as int, i + 2);
            assert(head + word =~= data@.take(i + 2));
            lemma_word_sum_concat(head, word);
            assert(word.skip(2) =~= Seq::<u8>::empty());
            assert(word_sum(word.skip(2)) == 0);
            assert(word_sum(word) == w);
            lemma_word_sum_bound(head);
            lemma_fold_add(word_sum(head), w as int);
        }
        acc = add1c(acc, w);
        i = i + 2;
    }
    if i < n {
        let w: u16 = data[i] as u16 * 256;
        proof {
            let head = data@.take(i as int);
            let word = data@.subrange(i as int, i + 1);
            assert(head + word =~= data@);
            lemma_word_sum_concat(head, word);
            assert(word_sum(word) == w);
            lemma_word_sum_bound(head);
            lemma_fold_add(word_sum(head), w as int);
        }
        acc = add1c(acc, w);
    } else {
        assert(data@.take(i as int) =~= data@);
    }
    0xFFFF - acc
}

/// Given the old checksum field and a list of `(old_word, new_word)` changes, the new
/// checksum: `~(~old + sum(~m) + sum(m'))`.
pub fn checksum_incr(old_check: u16, changes: &[(u16, u16)]) -> (r: u16)
    ensures
        r == incremental(old_check as int, changes@),
{
    let mut acc: u16 = 0xFFFF - old_check;
    let mut i: usize = 0;
    proof {
        lemma_fold_range(65535 - old_check);
    }
    while i < changes.len()
        invariant
            i <= changes@.len(),
            acc == fold16(65535 - old_check + change_sum(changes@.take(i as int))),
            change_sum(changes@.take(i as int)) >= 0,
        decreases changes@.len() - i,
    {
        let (m, mp) = changes[i];
        proof {
            let sum = 65535 - old_check + change_sum(changes@.take(i as int));
            lemma_fold_add(sum, 65535 - m);
            lemma_fold_add(sum + (65535 - m), mp as int);
            assert(changes@.take(i + 1).drop_last() =~= changes@.take(i as int));
        }
        acc = add1c(acc, 0xFFFF - m);
        acc = add1c(acc, mp);
        i = i + 1;
    }
    assert(changes@.take(i as int) =~= changes@);
    0xFFFF - acc
}

/// The data after a list of word edits `(offset, value)`, first to last.
pub open spec fn edited(data: Seq<u8>, edits: Seq<(int, u16)>) -> Seq<u8>
    decreases edits.len(),
{
    if edits.len() == 0 {
        data
    } else {
        put16(edited(data, edits.drop_last()), edits.last().0, edits.last().1)
    }
}

/// The edits as `(old, new)` pairs.
pub open spec fn edit_changes(data: Seq<u8>, edits: Seq<(int, u16)>) -> Seq<(u16, u16)>
    decreases edits.len(),
{
    if edits.len() == 0 {
        Seq::empty()
    } else {
        edit_changes(data, edits.drop_last()).push(
            (
                be16(edited(data, edits.drop_last()), edits.last().0) as u16,
                edits.last().1,
            ),
        )
    }
}

/// Every edit replaces a whole word of `n` bytes.
pub open spec fn word_edits(n: nat, edits: Seq<(int, u16)>) -> bool {
    forall|k: int|
        0 <= k < edits.len() ==> 0 <= (#[trigger] edits[k]).0 && edits[k].0 + 1 < n && edits[k].0
            % 2 == 0
}

proof fn lemma_edit_sum(data: Seq<u8>, edits: Seq<(int, u16)>)
    requires
        word_edits(data.len(), edits),
    ensures
        edited(data, edits).len() == data.len(),
        word_sum(edited(data, edits)) + 65535 * edits.len() == word_sum(data) + change_sum(
            edit_changes(data, edits),
        ),
    decreases edits.len(),
{
    if edits.len() > 0 {
        let rest = edits.drop_last();
        assert forall|k: int| 0 <= k < rest.len() implies 0 <= (#[trigger] rest[k]).0 && rest[k].0
            + 1 < data.len() && rest[k].0 % 2 == 0 by {
            assert(rest[k] == edits[k]);
        }
        lemma_edit_sum(data, rest);
        let last = edits.last();
        assert(last == edits[edits.len() - 1]);
        lemma_word_sum_put(edited(data, rest), last.0, last.1);
        let c = edit_changes(data, edits);
        assert(c.drop_last() =~= edit_changes(data, rest));
    }
}

/// The incremental update agrees with a recomputation from scratch: where `data` has a
/// zero checksum field, and any of its words are replaced, updating the old checksum
/// gives the checksum of the new data. Left out is only data that is all zero after the
/// edits, for which the two representations of zero differ.
pub proof fn lemma_incremental_is_full(data: Seq<u8>, edits: Seq<(int, u16)>)
    requires
        word_edits(data.len(), edits),
        edits.len() == 0 || word_sum(edited(data, edits)) != 0,
    ensures
        incremental(checksum_of(word_sum(data)), edit_changes(data, edits)) == checksum_of(
            word_sum(edited(data, edits)),
        ),
{
    lemma_edit_sum(data, edits);
    let s = word_sum(data);
    let t = word_sum(edited(data, edits));
    let d = change_sum(edit_changes(data, edits));
    lemma_word_sum_bound(data);
    lemma_word_sum_bound(edited(data, edits));
    lemma_change_sum_bound(edit_changes(data, edits));
    lemma_fold_add(s, d);
    lemma_fold_shift(t, edits.len() as int);
}

proof fn lemma_change_sum_concat(a: Seq<(u16, u16)>, b: Seq<(u16, u16)>)
    ensures
        change_sum(a + b) == change_sum(a) + change_sum(b),
    decreases b.len(),
{
    if b.len() == 0 {
        assert(a + b =~= a);
    } else {
        assert((a + b).drop_last() =~= a + b.drop_last());
        lemma_change_sum_concat(a, b.drop_last());
    }
}

/// Updates compose: bringing a checksum up to date for some changes, and then for others,
/// is bringing it up to date for all of them at once.
pub proof fn lemma_updates_compose(check: int, a: Seq<(u16, u16)>, b: Seq<(u16, u16)>)
    requires
        0 <= check <= 65535,
    ensures
        0 <= incremental(check, a) <= 65535,
        incremental(incremental(check, a), b) == incremental(check, a + b),
{
    lemma_change_sum_bound(a);
    lemma_change_sum_bound(b);
    lemma_change_sum_concat(a, b);
    let n = 65535 - check + change_sum(a);
    lemma_fold_range(n);
    lemma_fold_add(n, change_sum(b));
}

/// The changes that put everything back.
pub open spec fn reversed(changes: Seq<(u16, u16)>) -> Seq<(u16, u16)> {
    Seq::new(changes.len(), |i: int| (changes[i].1, changes[i].0))
}

proof fn lemma_reversed_sum(changes: Seq<(u16, u16)>)
    ensures
        change_sum(changes) + change_sum(reversed(changes)) == 131070 * changes.len(),
    decreases changes.len(),
{
    if changes.len() > 0 {
        lemma_reversed_sum(changes.drop_last());
        assert(reversed(changes).drop_last() =~= reversed(changes.drop_last()));
    }
}

/// An update can be undone: updating for some changes, and then for their reverse, gives
/// the old checksum back. Left out is only 0xFFFF, the checksum of data that is all zero,
/// which comes back as the other representation of zero.
pub proof fn lemma_update_is_undone(check: int, changes: Seq<(u16, u16)>)
    requires
        0 <= check <= 65535,
        check < 65535 || changes.len() == 0,
    ensures
        incremental(incremental(check, changes), reversed(changes)) == check,
{
    lemma_updates_compose(check, changes, reversed(changes));
    lemma_change_sum_concat(changes, reversed(changes));
    lemma_reversed_sum(changes);
    let n = 65535 - check;
    lemma_fold_range(n);
    if changes.len() > 0 {
        lemma_fold_shift(n, 2 * changes.len() as int);
        assert(n + 65535 * (2 * changes.len()) == n + 131070 * changes.len());
    }
}

pub(crate) proof fn lemma_change_sum_bound(changes: Seq<(u16, u16)>)
    ensures
        0 <= change_sum(changes) <= 131070 * changes.len(),
    decreases changes.len(),
{
    if changes.len() > 0 {
        lemma_change_sum_bound(changes.drop_last());
    }
}

/// What a sum of words is: two bytes are a number, the more significant one first, an odd
/// last byte counts as if a zero followed, and pieces of even length add up.
pub proof fn lemma_word_sums(a: u8, b: u8, s: Seq<u8>, t: Seq<u8>)
    requires
        s.len() % 2 == 0,
    ensures
        word_sum(Seq::empty()) == 0,
        word_sum(seq![a]) == 256 * a,
        word_sum(seq![a, b]) == 256 * a + b,
        word_sum(s + t) == word_sum(s) + word_sum(t),
{
    lemma_word_sum_concat(s, t);
    assert(seq![a, b].skip(2) =~= Seq::empty());
    reveal_with_fuel(word_sum, 2);
}

/// What end-around carries come to: sixteen bits that agree with the sum modulo 65535, zero
/// for the empty sum only.
pub proof fn lemma_folded(n: int)
    requires
        n >= 0,
    ensures
        0 <= fold16(n) <= 65535,
        (n - fold16(n)) % 65535 == 0,
        fold16(n) == 0 <==> n == 0,
        fold16(n % 65536 + n / 65536) == fold16(n),
{
    lemma_fold_step(n);
    if n > 0 {
        let k = (n - 1) / 65535;
        assert(n - fold16(n) == 65535 * k);
        assert((65535 * k) % 65535 == 0);
    }
}

/// What a checksum is for: data and its checksum together sum to all ones, and no other
/// sixteen bits that are not zero do that.
pub proof fn lemma_checksum_checks(data: Seq<u8>, check: int)
    requires
        0 <= check <= 65535,
        word_sum(data) > 0,
    ensures
        0 <= checksum_of(word_sum(data)) <= 65535,
        fold16(word_sum(data) + checksum_of(word_sum(data))) == 65535,
        fold16(word_sum(data) + check) == 65535 ==> check == checksum_of(word_sum(data)) || check
            == 65535,
{
    let s = word_sum(data);
    let k = (s - 1) / 65535;
    assert(fold16(s) == s - 65535 * k);
    assert(s + checksum_of(s) == 65535 * (k + 1));
    lemma_fold_shift(0, k + 1);
    let d = check - checksum_of(s);
    if fold16(s + check) == 65535 {
        assert(s + check == 65535 * (k + 1) + d);
        let q = (s + check - 1) / 65535;
        assert(s + check == 65535 * q + 65535);
        assert(d == 65535 * (q - k));
    }
}

/// What an update does to a checksum: it moves it by as much as the words have moved, the
/// other way, up to end-around carries. All ones come out only where they went in and every
/// word went from all ones to zero.
pub proof fn lemma_update_moves(check: int, changes: Seq<(u16, u16)>)
    requires
        0 <= check <= 65535,
    ensures
        0 <= incremental(check, changes) <= 65535,
        (incremental(check, changes) - check + moved(changes)) % 65535 == 0,
        incremental(check, changes) == 65535 <==> check == 65535 && forall|i: int|
            0 <= i < changes.len() ==> #[trigger] changes[i] == (65535u16, 0u16),
{
    lemma_moved(changes);
    let n = 65535 - check + change_sum(changes);
    lemma_fold_range(n);
    let k = if n > 0 {
        (n - 1) / 65535
    } else {
        0
    };
    assert(fold16(n) == n - 65535 * k);
    let m = k - changes.len();
    assert(incremental(check, changes) - check + moved(changes) == 65535 * m);
    assert((65535 * m) % 65535 == 0);
}

/// How far the words of a list of changes have moved, together.
pub open spec fn moved(changes: Seq<(u16, u16)>) -> int
    decreases changes.len(),
{
    if changes.len() == 0 {
        0
    } else {
        moved(changes.drop_last()) + changes.last().1 - changes.last().0
    }
}

proof fn lemma_moved(changes: Seq<(u16, u16)>)
    ensures
        change_sum(changes) == 65535 * changes.len() + moved(changes),
        change_sum(changes) >= 0,
        change_sum(changes) == 0 <==> forall|i: int|
            0 <= i < changes.len() ==> #[trigger] changes[i] == (65535u16, 0u16),
    decreases changes.len(),
{
    if changes.len() > 0 {
        let front = changes.drop_last();
        lemma_moved(front);
        let last = changes.len() - 1;
        assert(changes.last() == changes[last]);
        if change_sum(changes) == 0 {
            assert forall|i: int| 0 <= i < changes.len() implies #[trigger] changes[i] == (
            65535u16, 0u16) by {
                if i < last {
                    assert(front[i] == changes[i]);
                }
            }
        } else if forall|i: int|
            0 <= i < changes.len() ==> #[trigger] changes[i] == (65535u16, 0u16) {
            assert forall|i: int| 0 <= i < front.len() implies #[trigger] front[i] == (
            65535u16, 0u16) by {
                assert(front[i] == changes[i]);
            }
            assert(changes[last] == (65535u16, 0u16));
        }
    }
}

} // verus!
