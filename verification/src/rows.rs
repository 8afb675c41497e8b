//! The leaderboard's records, keyed by (player, language) and kept in key
//! order.
//!
//! Rows are ordered by player, then by language, character by character, so
//! a player's rows always sit together and in the same place: a write
//! touches only the row it is for, and two players' writes to the file merge
//! cleanly. What a record holds is the caller's business.

use vstd::prelude::*;

use crate::text::{chars_eq, chars_of};

verus! {

/// `a` sorts before `b`: at the first character where they differ, `a`'s
/// has the lower code point, or `a` is a proper prefix of `b` (the order of
/// `str`).
pub open spec fn chars_before(a: Seq<char>, b: Seq<char>) -> bool
    decreases a.len(),
{
    if b.len() == 0 {
        false
    } else if a.len() == 0 {
        true
    } else if a[0] != b[0] {
        (a[0] as int) < (b[0] as int)
    } else {
        chars_before(a.drop_first(), b.drop_first())
    }
}

/// Key order: by player, then by language.
pub open spec fn key_before(a: (Seq<char>, Seq<char>), b: (Seq<char>, Seq<char>)) -> bool {
    chars_before(a.0, b.0) || (a.0 == b.0 && chars_before(a.1, b.1))
}

/// Rows in strictly increasing key order (so no key occurs twice).
pub open spec fn in_key_order<T>(s: Seq<((Seq<char>, Seq<char>), T)>) -> bool {
    forall|i: int, j: int| 0 <= i < j < s.len() ==> key_before(#[trigger] s[i].0, #[trigger] s[j].0)
}

/// How many leading rows have a key before `k`: where a row keyed `k`
/// belongs.
pub open spec fn position_of<T>(s: Seq<((Seq<char>, Seq<char>), T)>, k: (Seq<char>, Seq<char>)) -> nat
    decreases s.len(),
{
    if s.len() == 0 {
        0
    } else if key_before(s[0].0, k) {
        1 + position_of(s.drop_first(), k)
    } else {
        0
    }
}

/// The rows after writing `v` under key `k`: the row keyed `k` gets the new
/// value, or a new row is put in its place in key order.
pub open spec fn with_row<T>(s: Seq<((Seq<char>, Seq<char>), T)>, k: (Seq<char>, Seq<char>), v: T) -> Seq<
    ((Seq<char>, Seq<char>), T),
> {
    let p = position_of(s, k) as int;
    if p < s.len() && s[p].0 == k {
        s.update(p, (k, v))
    } else {
        s.insert(p, (k, v))
    }
}

/// Whether some row is keyed `k`.
pub open spec fn has_row<T>(s: Seq<((Seq<char>, Seq<char>), T)>, k: (Seq<char>, Seq<char>)) -> bool {
    exists|i: int| 0 <= i < s.len() && #[trigger] s[i].0 == k
}

/// The index of a row keyed `k`, if some row is.
pub open spec fn row_index<T>(s: Seq<((Seq<char>, Seq<char>), T)>, k: (Seq<char>, Seq<char>)) -> int {
    choose|i: int| 0 <= i < s.len() && #[trigger] s[i].0 == k
}

/// The value of the row keyed `k`, if there is one.
pub open spec fn row_value<T>(s: Seq<((Seq<char>, Seq<char>), T)>, k: (Seq<char>, Seq<char>)) -> Option<T> {
    if has_row(s, k) {
        Some(s[row_index(s, k)].1)
    } else {
        None
    }
}

/// A stored row by its view: its key and its value.
pub open spec fn row_view<T>(e: (String, String, T)) -> ((Seq<char>, Seq<char>), T) {
    ((e.0@, e.1@), e.2)
}

// -- The order ---------------------------------------------------------------

proof fn lemma_chars_before_irreflexive(a: Seq<char>)
    ensures
        !chars_before(a, a),
    decreases a.len(),
{
    if a.len() > 0 {
        lemma_chars_before_irreflexive(a.drop_first());
    }
}

proof fn lemma_chars_before_total(a: Seq<char>, b: Seq<char>)
    ensures
        a == b || chars_before(a, b) || chars_before(b, a),
    decreases a.len(),
{
    if a.len() > 0 && b.len() > 0 && a[0] == b[0] {
        lemma_chars_before_total(a.drop_first(), b.drop_first());
        if a.drop_first() == b.drop_first() {
            assert(a =~= seq![a[0]] + a.drop_first());
            assert(b =~= seq![b[0]] + b.drop_first());
        }
    } else if a.len() == 0 && b.len() == 0 {
        assert(a =~= b);
    } else if a.len() > 0 && b.len() > 0 {
    }
}

proof fn lemma_chars_before_asymmetric(a: Seq<char>, b: Seq<char>)
    requires
        chars_before(a, b),
    ensures
        !chars_before(b, a),
    decreases a.len(),
{
    if a.len() > 0 && b.len() > 0 && a[0] == b[0] {
        lemma_chars_before_asymmetric(a.drop_first(), b.drop_first());
    }
}

proof fn lemma_chars_before_transitive(a: Seq<char>, b: Seq<char>, c: Seq<char>)
    requires
        chars_before(a, b),
        chars_before(b, c),
    ensures
        chars_before(a, c),
    decreases a.len(),
{
    if a.len() > 0 && a[0] == b[0] && b[0] == c[0] {
        lemma_chars_before_transitive(a.drop_first(), b.drop_first(), c.drop_first());
    }
}

proof fn lemma_key_order(a: (Seq<char>, Seq<char>), b: (Seq<char>, Seq<char>), c: (Seq<char>, Seq<char>))
    ensures
        !key_before(a, a),
        a == b || key_before(a, b) || key_before(b, a),
        key_before(a, b) ==> !key_before(b, a),
        key_before(a, b) && key_before(b, c) ==> key_before(a, c),
{
    lemma_chars_before_irreflexive(a.0);
    lemma_chars_before_irreflexive(a.1);
    lemma_chars_before_total(a.0, b.0);
    lemma_chars_before_total(a.1, b.1);
    if chars_before(a.0, b.0) {
        lemma_chars_before_asymmetric(a.0, b.0);
    }
    if chars_before(a.1, b.1) {
        lemma_chars_before_asymmetric(a.1, b.1);
    }
    if key_before(a, b) && key_before(b, c) {
        if chars_before(a.0, b.0) && chars_before(b.0, c.0) {
            lemma_chars_before_transitive(a.0, b.0, c.0);
        }
        if a.0 == b.0 && b.0 == c.0 {
            lemma_chars_before_transitive(a.1, b.1, c.1);
        }
    }
}

/// Where a key belongs: every row before it has a smaller key, the row at it
/// (if any) does not.
proof fn lemma_position_of<T>(s: Seq<((Seq<char>, Seq<char>), T)>, k: (Seq<char>, Seq<char>))
    ensures
        position_of(s, k) <= s.len(),
        forall|i: int| 0 <= i < position_of(s, k) ==> key_before(#[trigger] s[i].0, k),
        position_of(s, k) < s.len() ==> !key_before(s[position_of(s, k) as int].0, k),
    decreases s.len(),
{
    if s.len() > 0 && key_before(s[0].0, k) {
        lemma_position_of(s.drop_first(), k);
        assert forall|i: int| 0 <= i < position_of(s, k) implies key_before(#[trigger] s[i].0, k) by {
            if i > 0 {
                assert(s[i] == s.drop_first()[i - 1]);
            }
        }
    }
}

/// A scan that stops at the first row not before `k` finds its position.
proof fn lemma_position_is_first_not_before<T>(s: Seq<((Seq<char>, Seq<char>), T)>, k: (Seq<char>, Seq<char>), p: int)
    requires
        0 <= p <= s.len(),
        forall|i: int| 0 <= i < p ==> key_before(#[trigger] s[i].0, k),
        p < s.len() ==> !key_before(s[p].0, k),
    ensures
        position_of(s, k) == p,
    decreases s.len(),
{
    if s.len() > 0 && p > 0 {
        assert(key_before(s[0].0, k));
        assert forall|i: int| 0 <= i < p - 1 implies key_before(#[trigger] s.drop_first()[i].0, k) by {
            assert(s.drop_first()[i] == s[i + 1]);
        }
        lemma_position_is_first_not_before(s.drop_first(), k, p - 1);
    }
}

/// Where the new key goes: after every smaller key and before every larger
/// one.
proof fn lemma_position_splits<T>(s: Seq<((Seq<char>, Seq<char>), T)>, k: (Seq<char>, Seq<char>))
    requires
        in_key_order(s),
    ensures
        forall|i: int| 0 <= i < position_of(s, k) ==> key_before(#[trigger] s[i].0, k),
        forall|i: int|
            position_of(s, k) <= i < s.len() && s[i].0 != k ==> key_before(k, #[trigger] s[i].0),
        forall|i: int| position_of(s, k) < i < s.len() ==> #[trigger] s[i].0 != k,
{
    lemma_position_of(s, k);
    let p = position_of(s, k) as int;
    assert forall|i: int| p <= i < s.len() && s[i].0 != k implies key_before(k, #[trigger] s[i].0) by {
        lemma_key_order(s[p].0, k, s[i].0);
        lemma_key_order(k, s[p].0, s[i].0);
        if i > p {
            assert(key_before(s[p].0, s[i].0));
        }
    }
    assert forall|i: int| p < i < s.len() implies #[trigger] s[i].0 != k by {
        lemma_key_order(s[p].0, s[i].0, s[i].0);
        lemma_key_order(k, s[p].0, s[p].0);
        assert(key_before(s[p].0, s[i].0));
    }
}

/// Rows in key order have distinct keys.
proof fn lemma_keys_distinct<T>(s: Seq<((Seq<char>, Seq<char>), T)>, i: int, j: int)
    requires
        in_key_order(s),
        0 <= i < s.len(),
        0 <= j < s.len(),
        s[i].0 == s[j].0,
    ensures
        i == j,
{
    lemma_key_order(s[i].0, s[i].0, s[i].0);
    if i < j {
        assert(key_before(s[i].0, s[j].0));
    } else if j < i {
        assert(key_before(s[j].0, s[i].0));
    }
}

/// The value of the row at `i` is what a lookup of its key gives.
proof fn lemma_row_value_at<T>(s: Seq<((Seq<char>, Seq<char>), T)>, at: int)
    requires
        in_key_order(s),
        0 <= at < s.len(),
    ensures
        row_value(s, s[at].0) == Some(s[at].1),
{
    let k = s[at].0;
    assert(has_row(s, k));
    let c = row_index(s, k);
    lemma_keys_distinct(s, c, at);
}

// -- Laws ----------------------------------------------------------------------

/// Writing a row keeps the rows in key order.
pub proof fn law_rows_stay_in_key_order<T>(s: Seq<((Seq<char>, Seq<char>), T)>, k: (Seq<char>, Seq<char>), v: T)
    requires
        in_key_order(s),
    ensures
        in_key_order(with_row(s, k, v)),
{
    lemma_position_splits(s, k);
    lemma_position_of(s, k);
    let p = position_of(s, k) as int;
    let t = with_row(s, k, v);
    if p < s.len() && s[p].0 == k {
        assert forall|i: int, j: int| 0 <= i < j < t.len() implies key_before(#[trigger] t[i].0, #[trigger] t[j].0) by {
            assert(t[i].0 == s[i].0);
            assert(t[j].0 == s[j].0);
        }
    } else {
        assert forall|i: int, j: int| 0 <= i < j < t.len() implies key_before(#[trigger] t[i].0, #[trigger] t[j].0) by {
            if i < p && j == p {
                assert(t[i] == s[i]);
            } else if i < p && j > p {
                assert(t[i] == s[i]);
                assert(t[j] == s[j - 1]);
                lemma_key_order(s[i].0, k, s[j - 1].0);
                assert(s[j - 1].0 != k);
            } else if i == p {
                assert(t[j] == s[j - 1]);
                assert(s[j - 1].0 != k);
            } else if i > p {
                assert(t[i] == s[i - 1]);
                assert(t[j] == s[j - 1]);
            } else {
                assert(t[i] == s[i]);
                assert(t[j] == s[j]);
            }
        }
    }
}

/// What a read gives back after a write: the written value under the
/// written key, and the old value under every other key.
pub proof fn law_row_read_after_write<T>(
    s: Seq<((Seq<char>, Seq<char>), T)>,
    k: (Seq<char>, Seq<char>),
    v: T,
    other: (Seq<char>, Seq<char>),
)
    requires
        in_key_order(s),
    ensures
        row_value(with_row(s, k, v), k) == Some(v),
        other != k ==> row_value(with_row(s, k, v), other) == row_value(s, other),
{
    law_rows_stay_in_key_order(s, k, v);
    lemma_position_of(s, k);
    let p = position_of(s, k) as int;
    let t = with_row(s, k, v);
    assert(t[p] == (k, v));
    lemma_row_value_at(t, p);
    if other != k {
        if has_row(s, other) {
            let i = row_index(s, other);
            lemma_row_value_at(s, i);
            let ti = if p < s.len() && s[p].0 == k {
                i
            } else if i < p {
                i
            } else {
                i + 1
            };
            assert(t[ti] == s[i]);
            lemma_row_value_at(t, ti);
        } else {
            assert forall|j: int| 0 <= j < t.len() implies #[trigger] t[j].0 != other by {
                if p < s.len() && s[p].0 == k {
                    if j != p {
                        assert(t[j] == s[j]);
                    }
                } else if j < p {
                    assert(t[j] == s[j]);
                } else if j > p {
                    assert(t[j] == s[j - 1]);
                }
            }
        }
    }
}

// -- The rows ------------------------------------------------------------------

/// Values keyed by (player, language), in key order. Kept as a sorted
/// vector: vstd's `BTreeMap` contracts hold only for key types with an
/// ordering model, and `String` has none.
pub struct KeyedRows<T> {
    rows: Vec<(String, String, T)>,
}

impl<T> View for KeyedRows<T> {
    type V = Seq<((Seq<char>, Seq<char>), T)>;

    closed spec fn view(&self) -> Seq<((Seq<char>, Seq<char>), T)> {
        self.rows@.map_values(|e: (String, String, T)| row_view(e))
    }
}

/// Whether the stored row `e` has a key before `(player, language)`.
fn row_key_before<T>(e: &(String, String, T), player: &[char], language: &[char]) -> (r: bool)
    ensures
        r == key_before(row_view(*e).0, (player@, language@)),
{
    let p = chars_of(e.0.as_str());
    if chars_before_exec(p.as_slice(), player) {
        return true;
    }
    if !chars_eq(p.as_slice(), player) {
        return false;
    }
    let l = chars_of(e.1.as_str());
    chars_before_exec(l.as_slice(), language)
}

/// Whether the stored row `e` is keyed `(player, language)`.
fn row_key_is<T>(e: &(String, String, T), player: &[char], language: &[char]) -> (r: bool)
    ensures
        r == (row_view(*e).0 == (player@, language@)),
{
    let p = chars_of(e.0.as_str());
    let l = chars_of(e.1.as_str());
    chars_eq(p.as_slice(), player) && chars_eq(l.as_slice(), language)
}

fn chars_before_exec(a: &[char], b: &[char]) -> (r: bool)
    ensures
        r == chars_before(a@, b@),
{
    let mut i: usize = 0;
    proof {
        assert(a@.skip(0) =~= a@);
        assert(b@.skip(0) =~= b@);
    }
    while i < a.len() && i < b.len() && a[i] == b[i]
        invariant
            i <= a.len(),
            i <= b.len(),
            a@.subrange(0, i as int) == b@.subrange(0, i as int),
            chars_before(a@, b@) == chars_before(a@.skip(i as int), b@.skip(i as int)),
        decreases a.len() - i,
    {
        proof {
            let x = a@.skip(i as int);
            let y = b@.skip(i as int);
            assert(x.drop_first() =~= a@.skip(i + 1));
            assert(y.drop_first() =~= b@.skip(i + 1));
            assert(a@.subrange(0, i + 1) =~= a@.subrange(0, i as int).push(a@[i as int]));
            assert(b@.subrange(0, i + 1) =~= b@.subrange(0, i as int).push(b@[i as int]));
        }
        i = i + 1;
    }
    if i == b.len() {
        false
    } else if i == a.len() {
        true
    } else {
        a[i] < b[i]
    }
}

impl<T> KeyedRows<T> {
    #[verifier::type_invariant]
    spec fn rows_in_key_order(self) -> bool {
        in_key_order(self@)
    }

    /// No rows.
    pub fn new() -> (r: Self)
        ensures
            r@ == Seq::<((Seq<char>, Seq<char>), T)>::empty(),
    {
        let r = KeyedRows { rows: Vec::new() };
        proof {
            assert(r@ =~= Seq::<((Seq<char>, Seq<char>), T)>::empty());
        }
        r
    }

    /// The rows, in key order.
    pub fn rows(&self) -> (r: &Vec<(String, String, T)>)
        ensures
            r@.map_values(|e: (String, String, T)| row_view(e)) == self@,
            in_key_order(self@),
    {
        proof {
            use_type_invariant(self);
        }
        &self.rows
    }

    /// The value of the row keyed `(player, language)`, if there is one.
    pub fn get(&self, player: &str, language: &str) -> (r: Option<&T>)
        ensures
            match r {
                Some(v) => row_value(self@, (player@, language@)) == Some(*v),
                None => row_value(self@, (player@, language@)) is None,
            },
    {
        proof {
            use_type_invariant(self);
        }
        let p = chars_of(player);
        let l = chars_of(language);
        let ghost k = (player@, language@);
        let mut i: usize = 0;
        while i < self.rows.len()
            invariant
                i <= self.rows.len(),
                in_key_order(self@),
                k == (player@, language@),
                p@ == k.0,
                l@ == k.1,
                forall|j: int| 0 <= j < i ==> #[trigger] self@[j].0 != k,
            decreases self.rows.len() - i,
        {
            let e = &self.rows[i];
            if row_key_is(e, p.as_slice(), l.as_slice()) {
                proof {
                    assert(self@[i as int] == row_view(self.rows@[i as int]));
                    lemma_row_value_at(self@, i as int);
                }
                return Some(&e.2);
            }
            proof {
                assert(self@[i as int] == row_view(self.rows@[i as int]));
            }
            i = i + 1;
        }
        proof {
            assert forall|j: int| 0 <= j < self@.len() implies #[trigger] self@[j].0 != k by {}
        }
        None
    }

    /// Writes `value` under `(player, language)`: the row with that key gets
    /// it, or a new row is put in its place in key order.
    pub fn insert(&mut self, player: String, language: String, value: T)
        ensures
            final(self)@ == with_row(old(self)@, (player@, language@), value),
    {
        proof {
            use_type_invariant(&*self);
        }
        let ghost k = (player@, language@);
        let ghost before = self@;
        let mut rows: Vec<(String, String, T)> = Vec::new();
        std::mem::swap(&mut rows, &mut self.rows);
        let p = chars_of(player.as_str());
        let l = chars_of(language.as_str());
        let mut i: usize = 0;
        while i < rows.len() && row_key_before(&rows[i], p.as_slice(), l.as_slice())
            invariant
                i <= rows.len(),
                p@ == k.0,
                l@ == k.1,
                rows@.map_values(|e: (String, String, T)| row_view(e)) == before,
                forall|j: int| 0 <= j < i ==> key_before(#[trigger] before[j].0, k),
            decreases rows.len() - i,
        {
            proof {
                assert(before[i as int] == row_view(rows@[i as int]));
            }
            i = i + 1;
        }
        proof {
            if i < rows.len() {
                assert(before[i as int] == row_view(rows@[i as int]));
            }
            lemma_position_is_first_not_before(before, k, i as int);
        }
        let same = i < rows.len() && row_key_is(&rows[i], p.as_slice(), l.as_slice());
        proof {
            if i < rows.len() {
                assert(before[i as int] == row_view(rows@[i as int]));
            }
            law_rows_stay_in_key_order(before, k, value);
        }
        if same {
            rows.remove(i);
            rows.insert(i, (player, language, value));
        } else {
            rows.insert(i, (player, language, value));
        }
        proof {
            assert(rows@.map_values(|e: (String, String, T)| row_view(e)) =~= with_row(before, k, value));
        }
        self.rows = rows;
    }
}

} // verus!
