//! The value model of the rule language: every runtime value a script can
//! read or write, and the mutable variable store that one rule owns.

use vstd::prelude::*;

verus! {

broadcast use vstd::std_specs::vec::group_vec_axioms;

/// Mathematical model of a runtime value.
pub enum VarModel {
    Int(nat),
    Counter(nat),
    Text(Seq<char>),
    Bool(bool),
    List(Seq<VarModel>),
    Record(Seq<(Seq<char>, VarModel)>),
}

/// A runtime value of the rule language.
///
/// Numeric variants compare numerically with each other; any variant can be
/// compared against a raw literal string, which is then read as a value of
/// that variant's type.
pub enum Variable {
    Int(usize),
    Counter64(u64),
    Text(String),
    Bool(bool),
    List(Vec<Variable>),
    Record(VariableMap),
}

/// The variable store of one rule: an ordered mapping from names to values.
/// Insertion overwrites an existing entry in place; iteration and rendering
/// follow insertion order.
pub struct VariableMap {
    entries: Vec<(String, Variable)>,
}

/// The models of the elements of a list of values.
pub open spec fn views_of_list(items: Seq<Variable>) -> Seq<VarModel>
    decreases items,
{
    if items.len() == 0 {
        Seq::empty()
    } else {
        views_of_list(items.drop_last()).push(items.last()@)
    }
}

/// The models of the entries of a variable store.
pub open spec fn entries_model(entries: Seq<(String, Variable)>) -> Seq<(Seq<char>, VarModel)>
    decreases entries,
{
    if entries.len() == 0 {
        Seq::empty()
    } else {
        entries_model(entries.drop_last()).push(
            (entries.last().0@, entries.last().1@),
        )
    }
}

impl View for Variable {
    type V = VarModel;

    open spec fn view(&self) -> VarModel
        decreases self,
    {
        match self {
            Variable::Int(i) => VarModel::Int(*i as nat),
            Variable::Counter64(i) => VarModel::Counter(*i as nat),
            Variable::Text(s) => VarModel::Text(s@),
            Variable::Bool(b) => VarModel::Bool(*b),
            Variable::List(items) => VarModel::List(views_of_list(items@)),
            Variable::Record(map) => VarModel::Record(map@),
        }
    }
}

impl View for VariableMap {
    type V = Seq<(Seq<char>, VarModel)>;

    closed spec fn view(&self) -> Seq<(Seq<char>, VarModel)>
        decreases self,
    {
        entries_model(self.entries@)
    }
}

/// A list of values and the list of their models have the same length.
pub proof fn lemma_views_of_list_len(items: Seq<Variable>)
    ensures
        views_of_list(items).len() == items.len(),
    decreases items.len(),
{
    if items.len() > 0 {
        lemma_views_of_list_len(items.drop_last());
        assert(views_of_list(items) == views_of_list(items.drop_last()).push(items.last()@));
    } else {
        assert(views_of_list(items) == Seq::<VarModel>::empty());
    }
}

/// The model of the element at `i` stands at `i` in the list of models.
pub proof fn lemma_views_of_list_index(items: Seq<Variable>, i: int)
    requires
        0 <= i < items.len(),
    ensures
        views_of_list(items)[i] == items[i]@,
    decreases items.len(),
{
    lemma_views_of_list_len(items);
    lemma_views_of_list_len(items.drop_last());
    assert(views_of_list(items) == views_of_list(items.drop_last()).push(items.last()@));
    if i < items.len() - 1 {
        lemma_views_of_list_index(items.drop_last(), i);
        assert(items.drop_last()[i] == items[i]);
    }
}

/// A store and its model have the same length.
pub proof fn lemma_entries_model_len(entries: Seq<(String, Variable)>)
    ensures
        entries_model(entries).len() == entries.len(),
    decreases entries.len(),
{
    if entries.len() > 0 {
        lemma_entries_model_len(entries.drop_last());
        assert(entries_model(entries) == entries_model(entries.drop_last()).push(
            (entries.last().0@, entries.last().1@),
        ));
    } else {
        assert(entries_model(entries) == Seq::<(Seq<char>, VarModel)>::empty());
    }
}

/// The model of the entry at `i` stands at `i` in the store's model.
pub proof fn lemma_entries_model_index(entries: Seq<(String, Variable)>, i: int)
    requires
        0 <= i < entries.len(),
    ensures
        entries_model(entries)[i] == (entries[i].0@, entries[i].1@),
    decreases entries.len(),
{
    lemma_entries_model_len(entries);
    lemma_entries_model_len(entries.drop_last());
    assert(entries_model(entries) == entries_model(entries.drop_last()).push(
        (entries.last().0@, entries.last().1@),
    ));
    if i < entries.len() - 1 {
        lemma_entries_model_index(entries.drop_last(), i);
        assert(entries.drop_last()[i] == entries[i]);
    }
}

/// The whole correspondence between a list of values and its model.
pub proof fn lemma_views_of_list_all(items: Seq<Variable>)
    ensures
        views_of_list(items).len() == items.len(),
        forall|j: int| 0 <= j < items.len() ==> #[trigger] views_of_list(items)[j] == items[j]@,
{
    lemma_views_of_list_len(items);
    assert forall|j: int| 0 <= j < items.len() implies #[trigger] views_of_list(items)[j]
        == items[j]@ by {
        lemma_views_of_list_index(items, j);
    }
}

/// The whole correspondence between a store's entries and its model.
pub proof fn lemma_entries_model_all(entries: Seq<(String, Variable)>)
    ensures
        entries_model(entries).len() == entries.len(),
        forall|j: int| 0 <= j < entries.len() ==> #[trigger] entries_model(entries)[j] == (
            entries[j].0@,
            entries[j].1@,
        ),
{
    lemma_entries_model_len(entries);
    assert forall|j: int| 0 <= j < entries.len() implies #[trigger] entries_model(entries)[j] == (
        entries[j].0@,
        entries[j].1@,
    ) by {
        lemma_entries_model_index(entries, j);
    }
}

/// The value bound to `key`, read from the first entry that carries it.
pub open spec fn lookup(entries: Seq<(Seq<char>, VarModel)>, key: Seq<char>) -> Option<VarModel>
    decreases entries.len(),
{
    if entries.len() == 0 {
        None
    } else if entries[0].0 == key {
        Some(entries[0].1)
    } else {
        lookup(entries.drop_first(), key)
    }
}

/// Whether some entry carries `key`.
pub open spec fn has_key(entries: Seq<(Seq<char>, VarModel)>, key: Seq<char>) -> bool {
    lookup(entries, key) is Some
}

impl VariableMap {
    /// An empty store.
    pub fn new() -> (m: VariableMap)
        ensures
            m@ == Seq::<(Seq<char>, VarModel)>::empty(),
    {
        let m = VariableMap { entries: Vec::new() };
        proof {
            assert(m@ =~= Seq::<(Seq<char>, VarModel)>::empty());
        }
        m
    }

    pub open spec fn spec_get(&self, key: Seq<char>) -> Option<VarModel> {
        lookup(self@, key)
    }

    pub open spec fn spec_len(&self) -> nat {
        self@.len()
    }

    /// How many entries the store holds.
    pub fn len(&self) -> (n: usize)
        ensures
            n == self.spec_len(),
    {
        proof {
            lemma_entries_model_len(self.entries@);
        }
        self.entries.len()
    }

    /// The name at position `i`, in insertion order.
    pub fn key_at(&self, i: usize) -> (k: &String)
        requires
            i < self.spec_len(),
        ensures
            k@ == self@[i as int].0,
    {
        proof {
            lemma_entries_model_len(self.entries@);
            lemma_entries_model_index(self.entries@, i as int);
        }
        &self.entries[i].0
    }

    /// The value at position `i`, in insertion order.
    pub fn value_at(&self, i: usize) -> (v: &Variable)
        requires
            i < self.spec_len(),
        ensures
            v@ == self@[i as int].1,
    {
        proof {
            lemma_entries_model_len(self.entries@);
            lemma_entries_model_index(self.entries@, i as int);
        }
        &self.entries[i].1
    }

    /// Looks a name up in the store.
    pub fn get(&self, key: &str) -> (r: Option<&Variable>)
        ensures
            match r {
                Some(v) => self.spec_get(key@) == Some(v@),
                None => self.spec_get(key@) is None,
            },
    {
        let n = self.entries.len();
        let mut i: usize = 0;
        assert(self@.skip(0) =~= self@);
        while i < n
            invariant
                i <= n,
                n == self.entries.len(),
                lookup(self@, key@) == lookup(self@.skip(i as int), key@),
            decreases n - i,
        {
            proof {
                lemma_entries_model_len(self.entries@);
                lemma_entries_model_index(self.entries@, i as int);
            }
            assert(self@.skip(i as int)[0] == self@[i as int]);
            if str_equal(self.entries[i].0.as_str(), key) {
                return Some(&self.entries[i].1);
            }
            assert(self@.skip(i as int).drop_first() =~= self@.skip(i + 1));
            i += 1;
        }
        proof {
            lemma_entries_model_len(self.entries@);
        }
        assert(self@.skip(n as int) =~= Seq::<(Seq<char>, VarModel)>::empty());
        None
    }

    /// A store holding exactly the given entries, in order.
    pub(crate) fn from_entries(entries: Vec<(String, Variable)>) -> (m: VariableMap)
        ensures
            m@ == entries_model(entries@),
    {
        VariableMap { entries }
    }

    /// Binds `key` to `value`: the first entry already carrying `key` is
    /// overwritten in place, and a fresh name is appended at the end.
    pub fn insert(&mut self, key: &str, value: Variable)
        ensures
            forall|k: Seq<char>|
                #[trigger] lookup(final(self)@, k) == if k == key@ {
                    Some(value@)
                } else {
                    lookup(old(self)@, k)
                },
            !has_key(old(self)@, key@) ==> final(self)@ == old(self)@.push((key@, value@)),
            has_key(old(self)@, key@) ==> exists|i: int|
                {
                    &&& 0 <= i < old(self)@.len()
                    &&& old(self)@[i].0 == key@
                    &&& (forall|j: int| 0 <= j < i ==> old(self)@[j].0 != key@)
                    &&& final(self)@ == old(self)@.update(i, (key@, value@))
                },
    {
        let ghost old_view = self@;
        let n = self.entries.len();
        let mut i: usize = 0;
        assert(old_view.skip(0) =~= old_view);
        while i < n
            invariant
                i <= n,
                n == self.entries.len(),
                self.entries@ == old(self).entries@,
                old_view == old(self)@,
                lookup(old_view, key@) == lookup(old_view.skip(i as int), key@),
                forall|j: int| 0 <= j < i ==> old_view[j].0 != key@,
            decreases n - i,
        {
            proof {
                lemma_entries_model_len(self.entries@);
                lemma_entries_model_index(self.entries@, i as int);
            }
            assert(old_view.skip(i as int)[0] == old_view[i as int]);
            if str_equal(self.entries[i].0.as_str(), key) {
                let owned_key: String = key.to_owned();
                self.entries.set(i, (owned_key, value));
                proof {
                    lemma_entries_model_all(self.entries@);
                    lemma_entries_model_all(old(self).entries@);
                    assert(lookup(old_view.skip(i as int), key@) == Some(
                        old_view.skip(i as int)[0].1,
                    ));
                    assert(has_key(old_view, key@));
                    assert(self@ =~= old_view.update(i as int, (key@, value@)));
                    lemma_lookup_update(old_view, i as int, key@, value@);
                }
                return ;
            }
            assert(old_view.skip(i as int).drop_first() =~= old_view.skip(i + 1));
            i += 1;
        }
        proof {
            lemma_entries_model_len(self.entries@);
            assert(old_view.len() == n);
        }
        assert(old_view.skip(n as int) =~= Seq::<(Seq<char>, VarModel)>::empty());
        let owned_key: String = key.to_owned();
        self.entries.push((owned_key, value));
        proof {
            lemma_entries_model_all(self.entries@);
            lemma_entries_model_all(old(self).entries@);
            assert(self@ =~= old_view.push((key@, value@)));
            lemma_lookup_push(old_view, key@, value@);
        }
    }
}

/// Overwriting the first entry that carries a key changes that key's binding
/// and no other.
proof fn lemma_lookup_update(
    entries: Seq<(Seq<char>, VarModel)>,
    i: int,
    key: Seq<char>,
    value: VarModel,
)
    requires
        0 <= i < entries.len(),
        entries[i].0 == key,
        forall|j: int| 0 <= j < i ==> entries[j].0 != key,
    ensures
        forall|k: Seq<char>|
            #[trigger] lookup(entries.update(i, (key, value)), k) == if k == key {
                Some(value)
            } else {
                lookup(entries, k)
            },
    decreases entries.len(),
{
    let updated = entries.update(i, (key, value));
    if i == 0 {
        assert forall|k: Seq<char>|
            #[trigger] lookup(updated, k) == if k == key {
                Some(value)
            } else {
                lookup(entries, k)
            } by {
            assert(updated[0] == (key, value));
            if k != key {
                assert(updated.drop_first() =~= entries.drop_first());
                assert(entries[0].0 == key);
                assert(lookup(entries, k) == lookup(entries.drop_first(), k));
                assert(lookup(updated, k) == lookup(updated.drop_first(), k));
            }
        }
    } else {
        assert forall|j: int| 0 <= j < i - 1 implies entries.drop_first()[j].0 != key by {
            assert(entries.drop_first()[j] == entries[j + 1]);
        }
        assert(entries.drop_first()[i - 1] == entries[i]);
        lemma_lookup_update(entries.drop_first(), i - 1, key, value);
        assert forall|k: Seq<char>|
            #[trigger] lookup(updated, k) == if k == key {
                Some(value)
            } else {
                lookup(entries, k)
            } by {
            assert(updated.drop_first() =~= entries.drop_first().update(i - 1, (key, value)));
            assert(updated[0] == entries[0]);
            assert(entries[0].0 != key);
            assert(lookup(updated, k) == if updated[0].0 == k {
                Some(updated[0].1)
            } else {
                lookup(updated.drop_first(), k)
            });
            assert(lookup(entries, k) == if entries[0].0 == k {
                Some(entries[0].1)
            } else {
                lookup(entries.drop_first(), k)
            });
            assert(lookup(updated.drop_first(), k) == lookup(
                entries.drop_first().update(i - 1, (key, value)),
                k,
            ));
        }
    }
}

/// Appending an entry for a fresh key changes that key's binding and no other.
proof fn lemma_lookup_push(entries: Seq<(Seq<char>, VarModel)>, key: Seq<char>, value: VarModel)
    requires
        !has_key(entries, key),
    ensures
        forall|k: Seq<char>|
            #[trigger] lookup(entries.push((key, value)), k) == if k == key {
                Some(value)
            } else {
                lookup(entries, k)
            },
    decreases entries.len(),
{
    let pushed = entries.push((key, value));
    if entries.len() == 0 {
        assert forall|k: Seq<char>|
            #[trigger] lookup(pushed, k) == if k == key {
                Some(value)
            } else {
                lookup(entries, k)
            } by {
            assert(pushed[0] == (key, value));
            if k != key {
                let empty = Seq::<(Seq<char>, VarModel)>::empty();
                assert(pushed.drop_first() =~= empty);
                assert(lookup(pushed, k) == lookup(empty, k));
                assert(lookup(empty, k) is None);
                assert(lookup(entries, k) is None);
            }
        }
    } else {
        assert(lookup(entries, key) == if entries[0].0 == key {
            Some(entries[0].1)
        } else {
            lookup(entries.drop_first(), key)
        });
        lemma_lookup_push(entries.drop_first(), key, value);
        assert forall|k: Seq<char>|
            #[trigger] lookup(pushed, k) == if k == key {
                Some(value)
            } else {
                lookup(entries, k)
            } by {
            assert(pushed.drop_first() =~= entries.drop_first().push((key, value)));
            assert(pushed[0] == entries[0]);
            assert(lookup(pushed, k) == if pushed[0].0 == k {
                Some(pushed[0].1)
            } else {
                lookup(pushed.drop_first(), k)
            });
            assert(lookup(entries, k) == if entries[0].0 == k {
                Some(entries[0].1)
            } else {
                lookup(entries.drop_first(), k)
            });
        }
    }
}

/// Whether two strings hold the same characters.
pub fn str_equal(a: &str, b: &str) -> (r: bool)
    ensures
        r == (a@ == b@),
{
    let a_owned: String = a.to_owned();
    let b_owned: String = b.to_owned();
    a_owned == b_owned
}


/// Whether `c` is a decimal digit.
pub open spec fn is_digit(c: char) -> bool {
    48 <= c as u32 <= 57
}

/// The numeric value of the digit `c`.
pub open spec fn digit_val(c: char) -> nat {
    (c as u32 - 48) as nat
}

/// Whether every character of `s` is a decimal digit.
pub open spec fn all_digits(s: Seq<char>) -> bool {
    forall|i: int| 0 <= i < s.len() ==> is_digit(s[i])
}

/// The number that a string of decimal digits denotes.
pub open spec fn digits_value(s: Seq<char>) -> nat
    decreases s.len(),
{
    if s.len() == 0 {
        0
    } else {
        digits_value(s.drop_last()) * 10 + digit_val(s.last())
    }
}

/// The number that `s` denotes, read the way Rust reads unsigned integers:
/// an optional leading plus sign, then one or more decimal digits.
pub open spec fn parse_uint(s: Seq<char>) -> Option<nat> {
    let t = if s.len() > 0 && s[0] == '+' {
        s.drop_first()
    } else {
        s
    };
    if t.len() > 0 && all_digits(t) {
        Some(digits_value(t))
    } else {
        None
    }
}

/// A digit string denotes at least what any of its prefixes denotes.
proof fn lemma_digits_value_prefix(s: Seq<char>, j: int)
    requires
        0 <= j <= s.len(),
    ensures
        digits_value(s.take(j)) <= digits_value(s),
    decreases s.len() - j,
{
    if j == s.len() {
        assert(s.take(j) =~= s);
    } else {
        assert(s.take(j + 1).drop_last() =~= s.take(j));
        assert(s.take(j + 1).last() == s[j]);
        assert(digits_value(s.take(j + 1)) == digits_value(s.take(j)) * 10 + digit_val(s[j]));
        assert(digits_value(s.take(j)) * 10 >= digits_value(s.take(j))) by (nonlinear_arith);
        lemma_digits_value_prefix(s, j + 1);
    }
}

/// Reads `s` as an unsigned number no larger than `bound`.
///
/// `None` comes back exactly when `s` is not a number at all or denotes one
/// above the bound.
#[verifier::loop_isolation(false)]
fn parse_uint_bounded(s: &str, bound: u64) -> (r: Option<u64>)
    requires
        bound >= 9,
    ensures
        match r {
            Some(n) => parse_uint(s@) == Some(n as nat) && n <= bound,
            None => parse_uint(s@) is None || (parse_uint(s@) matches Some(v) && v > bound),
        },
{
    let len = s.unicode_len();
    let mut start: usize = 0;
    if len > 0 && s.get_char(0) == '+' {
        start = 1;
    }
    let ghost t = if s@.len() > 0 && s@[0] == '+' {
        s@.drop_first()
    } else {
        s@
    };
    assert(t =~= s@.skip(start as int));
    if start == len {
        return None;
    }
    let mut value: u64 = 0;
    let mut i: usize = start;
    assert(t.take(0) =~= Seq::<char>::empty());
    while i < len
        invariant
            start <= i <= len,
            len == s@.len(),
            t == s@.skip(start as int),
            t.len() == len - start,
            all_digits(t.take(i - start)),
            value == digits_value(t.take(i - start)),
            value <= bound,
        decreases len - i,
    {
        let c = s.get_char(i);
        assert(t[i - start] == s@[i as int]);
        let code: u32 = c as u32;
        if code < 48 || code > 57 {
            assert(!is_digit(t[(i - start) as int]));
            assert(!all_digits(t));
            return None;
        }
        let d: u64 = (code - 48) as u64;
        assert(t.take(i - start + 1).drop_last() =~= t.take(i - start));
        assert(t.take(i - start + 1).last() == t[i - start]);
        assert(digits_value(t.take(i - start + 1)) == value * 10 + d);
        if value > (bound - d) / 10 {
            proof {
                assert(value * 10 + d > bound) by (nonlinear_arith)
                    requires
                        value > (bound - d) / 10,
                        d <= 9,
                        d <= bound,
                        0 <= value,
                ;
                lemma_digits_value_prefix(t, i - start + 1);
                assert(digits_value(t) > bound);
                assert(all_digits(t) ==> parse_uint(s@) == Some(digits_value(t)));
            }
            return None;
        }
        assert(value * 10 + d <= bound) by (nonlinear_arith)
            requires
                value <= (bound - d) / 10,
                d <= 9,
                d <= bound,
                0 <= value,
        ;
        value = value * 10 + d;
        i += 1;
    }
    assert(t.take(len - start) =~= t);
    Some(value)
}

/// Reads `s` as a `usize`, the way `str::parse` does.
pub fn parse_usize(s: &str) -> (r: Option<usize>)
    ensures
        match r {
            Some(n) => parse_uint(s@) == Some(n as nat),
            None => parse_uint(s@) is None || (parse_uint(s@) matches Some(v) && v > usize::MAX),
        },
{
    match parse_uint_bounded(s, usize::MAX as u64) {
        Some(n) => Some(n as usize),
        None => None,
    }
}

/// Reads `s` as a `u64`, the way `str::parse` does.
pub fn parse_u64(s: &str) -> (r: Option<u64>)
    ensures
        match r {
            Some(n) => parse_uint(s@) == Some(n as nat),
            None => parse_uint(s@) is None || (parse_uint(s@) matches Some(v) && v > u64::MAX),
        },
{
    parse_uint_bounded(s, u64::MAX)
}

/// Relies on String::push: appends one character at the end of the string.
#[verifier::external_body]
pub(crate) fn push_char(s: &mut String, c: char)
    ensures
        final(s)@ == old(s)@.push(c),
{
    s.push(c);
}

/// The digit character for a value below ten.
pub open spec fn digit_char(d: nat) -> char
    recommends
        d < 10,
{
    ((48 + d) as u8) as char
}

/// The decimal rendering of `n`, most significant digit first.
pub open spec fn dec_digits(n: nat) -> Seq<char>
    decreases n,
{
    if n < 10 {
        seq![digit_char(n)]
    } else {
        dec_digits(n / 10).push(digit_char(n % 10))
    }
}

/// Renders `n` in decimal.
pub fn u64_to_string(n: u64) -> (s: String)
    ensures
        s@ == dec_digits(n as nat),
    decreases n,
{
    if n < 10 {
        let mut s = String::new();
        push_char(&mut s, ((48 + n as u8)) as char);
        assert(s@ =~= seq![digit_char(n as nat)]);
        s
    } else {
        let mut s = u64_to_string(n / 10);
        push_char(&mut s, (48 + (n % 10) as u8) as char);
        s
    }
}

/// Whether some entry of `y` carries `key` with a value equal to `v`.
pub open spec fn entry_matched(y: Seq<(Seq<char>, VarModel)>, key: Seq<char>, v: VarModel) -> bool
    decreases v, 1nat,
{
    exists|j: int| 0 <= j < y.len() && (#[trigger] y[j]).0 == key && model_eq(v, y[j].1)
}

/// Deep equality of two values.
///
/// Numeric values compare numerically, texts by their characters, lists
/// element by element in order, and records entry by entry without regard to
/// order; values of any other two different kinds are never equal.
pub open spec fn model_eq(a: VarModel, b: VarModel) -> bool
    decreases a, 0nat,
{
    match (a, b) {
        (VarModel::Int(x), VarModel::Int(y)) => x == y,
        (VarModel::Int(x), VarModel::Counter(y)) => x == y,
        (VarModel::Counter(x), VarModel::Int(y)) => x == y,
        (VarModel::Counter(x), VarModel::Counter(y)) => x == y,
        (VarModel::Text(x), VarModel::Text(y)) => x == y,
        (VarModel::Bool(x), VarModel::Bool(y)) => x == y,
        (VarModel::List(x), VarModel::List(y)) => x.len() == y.len() && (forall|i: int|
            0 <= i < x.len() ==> model_eq(x[i], y[i])),
        (VarModel::Record(x), VarModel::Record(y)) => x.len() == y.len() && (forall|i: int|
            0 <= i < x.len() ==> entry_matched(y, (#[trigger] x[i]).0, x[i].1)),
        _ => false,
    }
}

/// The numeric reading of a value, where it has one.
pub open spec fn num_of(v: VarModel) -> Option<nat> {
    match v {
        VarModel::Int(n) => Some(n),
        VarModel::Counter(n) => Some(n),
        _ => None,
    }
}

/// Whether a value equals a raw literal string, read as a value of the
/// variable's own kind: numbers numerically, booleans as `true` / `false`,
/// texts by their characters; lists and records never equal a literal.
pub open spec fn matches_literal(v: VarModel, lit: Seq<char>) -> bool {
    match v {
        VarModel::Int(n) => parse_uint(lit) == Some(n),
        VarModel::Counter(n) => parse_uint(lit) == Some(n),
        VarModel::Text(s) => s == lit,
        VarModel::Bool(b) => if b {
            lit == "true"@
        } else {
            lit == "false"@
        },
        VarModel::List(_) => false,
        VarModel::Record(_) => false,
    }
}

impl Variable {
    /// Deep equality with another value; see `model_eq`.
    #[verifier::loop_isolation(false)]
    pub fn equals(&self, other: &Variable) -> (r: bool)
        ensures
            r == model_eq(self@, other@),
        decreases *self,
    {
        match (self, other) {
            (Variable::Int(x), Variable::Int(y)) => *x == *y,
            (Variable::Int(x), Variable::Counter64(y)) => (*x as u64) == *y,
            (Variable::Counter64(x), Variable::Int(y)) => *x == (*y as u64),
            (Variable::Counter64(x), Variable::Counter64(y)) => *x == *y,
            (Variable::Text(x), Variable::Text(y)) => str_equal(x.as_str(), y.as_str()),
            (Variable::Bool(x), Variable::Bool(y)) => *x == *y,
            (Variable::List(x), Variable::List(y)) => {
                proof {
                    lemma_views_of_list_len(x@);
                    lemma_views_of_list_len(y@);
                }
                assert(self@->List_0.len() == x@.len());
                assert(other@->List_0.len() == y@.len());
                if x.len() != y.len() {
                    return false;
                }
                let n = x.len();
                let mut i: usize = 0;
                while i < n
                    invariant
                        i <= n,
                        forall|j: int| 0 <= j < i ==> model_eq(x@[j]@, y@[j]@),
                    decreases n - i,
                {
                    proof {
                        assert(decreases_to!(*self => (*x)[i as int]));
                    }
                    if !x[i].equals(&y[i]) {
                        proof {
                            lemma_views_of_list_index(x@, i as int);
                            lemma_views_of_list_index(y@, i as int);
                            lemma_views_of_list_len(x@);
                            lemma_views_of_list_len(y@);
                        }
                        assert(self@->List_0[i as int] == x@[i as int]@);
                        assert(other@->List_0[i as int] == y@[i as int]@);
                        return false;
                    }
                    i += 1;
                }
                assert forall|j: int| 0 <= j < n implies model_eq(
                    self@->List_0[j],
                    other@->List_0[j],
                ) by {
                    lemma_views_of_list_index(x@, j);
                    lemma_views_of_list_index(y@, j);
                    assert(self@->List_0[j] == x@[j]@);
                    assert(other@->List_0[j] == y@[j]@);
                }
                true
            },
            (Variable::Record(x), Variable::Record(y)) => {
                assert(self@->Record_0 == x@);
                assert(other@->Record_0 == y@);
                proof {
                    lemma_entries_model_len(x.entries@);
                    lemma_entries_model_len(y.entries@);
                }
                if x.entries.len() != y.entries.len() {
                    return false;
                }
                let n = x.entries.len();
                let mut i: usize = 0;
                while i < n
                    invariant
                        i <= n,
                        forall|ii: int|
                            0 <= ii < i ==> entry_matched(y@, (#[trigger] x@[ii]).0, x@[ii].1),
                    decreases n - i,
                {
                    let m = y.entries.len();
                    let mut j: usize = 0;
                    let mut found: bool = false;
                    while j < m
                        invariant
                            j <= m,
                            found ==> entry_matched(y@, x@[i as int].0, x@[i as int].1),
                            !found ==> forall|jj: int|
                                0 <= jj < j ==> !((#[trigger] y@[jj]).0 == x@[i as int].0
                                    && model_eq(x@[i as int].1, y@[jj].1)),
                        decreases m - j,
                    {
                        proof {
                            lemma_entries_model_all(x.entries@);
                            lemma_entries_model_all(y.entries@);
                            assert(decreases_to!(*self => x.entries@[i as int].1));
                            assert(x@[i as int] == (x.entries@[i as int].0@, x.entries@[i as int].1@));
                            assert(y@[j as int] == (y.entries@[j as int].0@, y.entries@[j as int].1@));
                        }
                        if str_equal(
                            y.entries[j].0.as_str(),
                            x.entries[i].0.as_str(),
                        ) && x.entries[i].1.equals(&y.entries[j].1) {
                            assert(y@[j as int].0 == x@[i as int].0);
                            assert(model_eq(x@[i as int].1, y@[j as int].1));
                            found = true;
                            break ;
                        }
                        j += 1;
                    }
                    if !found {
                        assert(!entry_matched(y@, x@[i as int].0, x@[i as int].1));
                        return false;
                    }
                    i += 1;
                }
                true
            },
            _ => false,
        }
    }

    /// The numeric reading of this value, where it has one; see `num_of`.
    pub fn numeric_value(&self) -> (r: Option<u64>)
        ensures
            match r {
                Some(n) => num_of(self@) == Some(n as nat),
                None => num_of(self@) is None,
            },
    {
        match self {
            Variable::Int(n) => Some(*n as u64),
            Variable::Counter64(n) => Some(*n),
            _ => None,
        }
    }

    /// Whether this value equals the raw literal `lit`; see `matches_literal`.
    pub fn matches_lit(&self, lit: &str) -> (r: bool)
        ensures
            r == matches_literal(self@, lit@),
    {
        match self {
            Variable::Int(n) => {
                match parse_usize(lit) {
                    Some(m) => m == *n,
                    None => false,
                }
            },
            Variable::Counter64(n) => {
                match parse_u64(lit) {
                    Some(m) => m == *n,
                    None => false,
                }
            },
            Variable::Text(s) => str_equal(s.as_str(), lit),
            Variable::Bool(b) => {
                if *b {
                    str_equal(lit, "true")
                } else {
                    str_equal(lit, "false")
                }
            },
            Variable::List(_) => false,
            Variable::Record(_) => false,
        }
    }

    /// A deep copy of this value.
    #[verifier::loop_isolation(false)]
    pub fn duplicate(&self) -> (r: Variable)
        ensures
            r@ == self@,
        decreases *self,
    {
        match self {
            Variable::Int(n) => Variable::Int(*n),
            Variable::Counter64(n) => Variable::Counter64(*n),
            Variable::Text(s) => Variable::Text(s.clone()),
            Variable::Bool(b) => Variable::Bool(*b),
            Variable::List(items) => {
                let n = items.len();
                let mut out: Vec<Variable> = Vec::new();
                let mut i: usize = 0;
                while i < n
                    invariant
                        i <= n,
                        out@.len() == i,
                        forall|j: int| 0 <= j < i ==> (#[trigger] out@[j])@ == items@[j]@,
                    decreases n - i,
                {
                    proof {
                        assert(decreases_to!(*self => (*items)[i as int]));
                    }
                    out.push(items[i].duplicate());
                    i += 1;
                }
                let r = Variable::List(out);
                proof {
                    lemma_views_of_list_all(out@);
                    lemma_views_of_list_all(items@);
                    assert(r@->List_0 =~= self@->List_0);
                    assert(r@ == self@);
                }
                r
            },
            Variable::Record(map) => {
                let n = map.entries.len();
                let mut out_entries: Vec<(String, Variable)> = Vec::new();
                let mut i: usize = 0;
                while i < n
                    invariant
                        i <= n,
                        out_entries@.len() == i,
                        forall|j: int|
                            0 <= j < i ==> (#[trigger] out_entries@[j]).0@ == map.entries@[j].0@
                                && out_entries@[j].1@ == map.entries@[j].1@,
                    decreases n - i,
                {
                    proof {
                        assert(decreases_to!(*self => map.entries@[i as int].1));
                    }
                    let key: String = map.entries[i].0.clone();
                    let val = map.entries[i].1.duplicate();
                    out_entries.push((key, val));
                    i += 1;
                }
                let r = Variable::Record(VariableMap { entries: out_entries });
                proof {
                    lemma_entries_model_all(out_entries@);
                    lemma_entries_model_all(map.entries@);
                    assert(r@->Record_0 =~= self@->Record_0);
                    assert(r@ == self@);
                }
                r
            },
        }
    }
}





/// The text that a value prints as: numbers in decimal, booleans as `true`
/// or `false`, texts as their characters, lists bracketed and
/// comma-separated, records braced with `name: value` entries in insertion
/// order.
pub open spec fn render_model(v: VarModel) -> Seq<char>
    decreases v, 0nat, 0nat,
{
    match v {
        VarModel::Int(n) => dec_digits(n),
        VarModel::Counter(n) => dec_digits(n),
        VarModel::Text(s) => s,
        VarModel::Bool(b) => if b {
            "true"@
        } else {
            "false"@
        },
        VarModel::List(items) => "["@ + render_items(items) + "]"@,
        VarModel::Record(entries) => "{"@ + render_entries(entries) + "}"@,
    }
}

/// The rendering of list elements, comma-separated.
pub open spec fn render_items(items: Seq<VarModel>) -> Seq<char>
    decreases items, items.len(), 1nat,
{
    if items.len() == 0 {
        Seq::empty()
    } else if items.len() == 1 {
        render_model(items[0])
    } else {
        render_items(items.drop_last()) + ", "@ + render_model(items.last())
    }
}

/// The rendering of record entries, comma-separated.
pub open spec fn render_entries(entries: Seq<(Seq<char>, VarModel)>) -> Seq<char>
    decreases entries, entries.len(), 1nat,
{
    if entries.len() == 0 {
        Seq::empty()
    } else if entries.len() == 1 {
        entries[0].0 + ": "@ + render_model(entries[0].1)
    } else {
        render_entries(entries.drop_last()) + ", "@ + entries.last().0 + ": "@ + render_model(
            entries.last().1,
        )
    }
}

/// Relies on String::push_str: appends the characters of `other`.
#[verifier::external_body]
pub(crate) fn push_str(s: &mut String, other: &str)
    ensures
        final(s)@ == old(s)@ + other@,
{
    s.push_str(other);
}

impl Variable {
    /// The text this value prints as; see `render_model`.
    #[verifier::loop_isolation(false)]
    pub fn render(&self) -> (s: String)
        ensures
            s@ == render_model(self@),
        decreases *self,
    {
        match self {
            Variable::Int(n) => u64_to_string(*n as u64),
            Variable::Counter64(n) => u64_to_string(*n),
            Variable::Text(t) => t.clone(),
            Variable::Bool(b) => {
                if *b {
                    "true".to_owned()
                } else {
                    "false".to_owned()
                }
            },
            Variable::List(items) => {
                let n = items.len();
                let mut out: String = "[".to_owned();
                let ghost lv = self@->List_0;
                proof {
                    lemma_views_of_list_all(items@);
                    assert(lv.take(0) =~= Seq::<VarModel>::empty());
                }
                let mut i: usize = 0;
                while i < n
                    invariant
                        i <= n,
                        out@ == "["@ + render_items(lv.take(i as int)),
                    decreases n - i,
                {
                    proof {
                        assert(decreases_to!(*self => (*items)[i as int]));
                    }
                    if i > 0 {
                        push_str(&mut out, ", ");
                    }
                    let piece = items[i].render();
                    push_str(&mut out, piece.as_str());
                    proof {
                        assert(lv.take(i + 1).drop_last() =~= lv.take(i as int));
                        assert(lv.take(i + 1).last() == lv[i as int]);
                        assert(lv[i as int] == items@[i as int]@);
                        if i == 0 {
                            assert(out@ =~= "["@ + render_items(lv.take(1)));
                        } else {
                            assert(out@ =~= "["@ + (render_items(lv.take(i as int)) + ", "@
                                + render_model(lv[i as int])));
                        }
                    }
                    i += 1;
                }
                push_str(&mut out, "]");
                proof {
                    assert(lv.take(n as int) =~= lv);
                    assert(out@ =~= render_model(self@));
                }
                out
            },
            Variable::Record(map) => {
                let n = map.entries.len();
                let mut out: String = "{".to_owned();
                let ghost ev = self@->Record_0;
                proof {
                    lemma_entries_model_all(map.entries@);
                    assert(ev.take(0) =~= Seq::<(Seq<char>, VarModel)>::empty());
                }
                let mut i: usize = 0;
                while i < n
                    invariant
                        i <= n,
                        out@ == "{"@ + render_entries(ev.take(i as int)),
                    decreases n - i,
                {
                    proof {
                        assert(decreases_to!(*self => map.entries@[i as int].1));
                    }
                    if i > 0 {
                        push_str(&mut out, ", ");
                    }
                    push_str(&mut out, map.entries[i].0.as_str());
                    push_str(&mut out, ": ");
                    let piece = map.entries[i].1.render();
                    push_str(&mut out, piece.as_str());
                    proof {
                        assert(ev.take(i + 1).drop_last() =~= ev.take(i as int));
                        assert(ev.take(i + 1).last() == ev[i as int]);
                        assert(ev[i as int] == (map.entries@[i as int].0@, map.entries@[i as int].1@));
                        if i == 0 {
                            assert(out@ =~= "{"@ + render_entries(ev.take(1)));
                        } else {
                            assert(out@ =~= "{"@ + (render_entries(ev.take(i as int)) + ", "@
                                + ev[i as int].0 + ": "@ + render_model(ev[i as int].1)));
                        }
                    }
                    i += 1;
                }
                push_str(&mut out, "}");
                proof {
                    assert(ev.take(n as int) =~= ev);
                    assert(out@ =~= render_model(self@));
                }
                out
            },
        }
    }
}
} // verus!
