//! The value and column-type vocabulary shared by the parser, storage, and executor.
//!
//! A REAL value is held as an exact decimal number (`Decimal`): a sign and
//! the digits before and after the decimal point. Values compare by their
//! numeric value across INTEGER and REAL (`2 = 2.0`); TEXT compares only
//! with TEXT.

use vstd::prelude::*;
use std::cmp::Ordering;
use crate::text::{
    digits_text, int_text, lemma_nat_digits_small, nat_digits, push_char, push_digits_text,
    push_i64_text, push_nat_digits,
};
use vstd::string::StringExecFns;
use crate::lexer::collect_chars;

verus! {

#[derive(Debug, Clone, Copy, PartialEq, Eq, Structural)]
pub enum ColumnType {
    Integer,
    Text,
    Real,
}

impl ColumnType {
    /// The SQL spelling of the type.
    pub open spec fn name_view(self) -> Seq<char> {
        match self {
            ColumnType::Integer => "INTEGER"@,
            ColumnType::Text => "TEXT"@,
            ColumnType::Real => "REAL"@,
        }
    }

    pub fn name(&self) -> (r: &'static str)
        ensures
            r@ == self.name_view(),
    {
        match self {
            ColumnType::Integer => "INTEGER",
            ColumnType::Text => "TEXT",
            ColumnType::Real => "REAL",
        }
    }
}

/// An exact decimal number: `-` when `negative`, then the digits of
/// `int_digits`, a decimal point, and the digits of `frac_digits`.
/// A value built by `Decimal::new` is normalized: every digit is below ten,
/// `int_digits` has no leading zero, `frac_digits` no trailing zero, and
/// zero is not negative.
#[derive(Debug, Clone, PartialEq)]
pub struct Decimal {
    pub negative: bool,
    pub int_digits: Vec<u8>,
    pub frac_digits: Vec<u8>,
}

pub struct DecimalView {
    pub negative: bool,
    pub int_digits: Seq<u8>,
    pub frac_digits: Seq<u8>,
}

impl View for Decimal {
    type V = DecimalView;

    open spec fn view(&self) -> DecimalView {
        DecimalView {
            negative: self.negative,
            int_digits: self.int_digits@,
            frac_digits: self.frac_digits@,
        }
    }
}

pub open spec fn all_digits(ds: Seq<u8>) -> bool {
    forall|i: int| 0 <= i < ds.len() ==> #[trigger] ds[i] < 10
}

/// A decimal in normal form (see `Decimal`).
pub open spec fn decimal_wf(d: DecimalView) -> bool {
    &&& all_digits(d.int_digits)
    &&& all_digits(d.frac_digits)
    &&& d.int_digits.len() > 0 ==> d.int_digits[0] != 0
    &&& d.frac_digits.len() > 0 ==> d.frac_digits.last() != 0
    &&& d.negative ==> d.int_digits.len() + d.frac_digits.len() > 0
}

/// `ds` without its leading zeros.
pub open spec fn strip_leading_zeros(ds: Seq<u8>) -> Seq<u8>
    decreases ds.len(),
{
    if ds.len() > 0 && ds[0] == 0 {
        strip_leading_zeros(ds.drop_first())
    } else {
        ds
    }
}

/// `ds` without its trailing zeros.
pub open spec fn strip_trailing_zeros(ds: Seq<u8>) -> Seq<u8>
    decreases ds.len(),
{
    if ds.len() > 0 && ds.last() == 0 {
        strip_trailing_zeros(ds.drop_last())
    } else {
        ds
    }
}

/// The normal form of the decimal written with the given sign and digits.
pub open spec fn normalize_decimal(negative: bool, int_digits: Seq<u8>, frac_digits: Seq<u8>) -> DecimalView {
    let i = strip_leading_zeros(int_digits);
    let f = strip_trailing_zeros(frac_digits);
    DecimalView { negative: negative && i.len() + f.len() > 0, int_digits: i, frac_digits: f }
}

/// The decimal holding the integer `i`.
pub open spec fn int_decimal(i: i64) -> DecimalView {
    DecimalView {
        negative: i < 0,
        int_digits: if i < 0 { nat_digits((-(i as int)) as nat) } else { nat_digits(i as nat) },
        frac_digits: Seq::empty(),
    }
}

/// The text that `Display` writes for the number: an optional `-`, the
/// integer digits (`0` when there are none), then `.` and the fractional
/// digits when there are any.
pub open spec fn decimal_text(d: DecimalView) -> Seq<char> {
    let sign: Seq<char> = if d.negative { seq!['-'] } else { Seq::empty() };
    let int_part: Seq<char> = if d.int_digits.len() == 0 { seq!['0'] } else { digits_text(d.int_digits) };
    let frac_part: Seq<char> = if d.frac_digits.len() == 0 {
        Seq::empty()
    } else {
        seq!['.'] + digits_text(d.frac_digits)
    };
    sign + int_part + frac_part
}

/// Lexicographic order on digit sequences, a proper prefix coming first.
pub open spec fn digits_order(a: Seq<u8>, b: Seq<u8>) -> Ordering
    decreases a.len(),
{
    if a.len() == 0 {
        if b.len() == 0 { Ordering::Equal } else { Ordering::Less }
    } else if b.len() == 0 {
        Ordering::Greater
    } else if a[0] < b[0] {
        Ordering::Less
    } else if a[0] > b[0] {
        Ordering::Greater
    } else {
        digits_order(a.drop_first(), b.drop_first())
    }
}

/// Lexicographic order on character sequences by code point, a proper
/// prefix coming first: the order of `str`.
pub open spec fn text_order(a: Seq<char>, b: Seq<char>) -> Ordering
    decreases a.len(),
{
    if a.len() == 0 {
        if b.len() == 0 { Ordering::Equal } else { Ordering::Less }
    } else if b.len() == 0 {
        Ordering::Greater
    } else if a[0] < b[0] {
        Ordering::Less
    } else if a[0] > b[0] {
        Ordering::Greater
    } else {
        text_order(a.drop_first(), b.drop_first())
    }
}

pub open spec fn reverse_order(o: Ordering) -> Ordering {
    match o {
        Ordering::Less => Ordering::Greater,
        Ordering::Equal => Ordering::Equal,
        Ordering::Greater => Ordering::Less,
    }
}

/// The order of the absolute values of two normalized decimals: more
/// integer digits is larger; with as many, the digits decide, integer
/// part first.
pub open spec fn magnitude_order(a: DecimalView, b: DecimalView) -> Ordering {
    if a.int_digits.len() < b.int_digits.len() {
        Ordering::Less
    } else if a.int_digits.len() > b.int_digits.len() {
        Ordering::Greater
    } else {
        match digits_order(a.int_digits, b.int_digits) {
            Ordering::Equal => digits_order(a.frac_digits, b.frac_digits),
            o => o,
        }
    }
}

/// The numeric order of two normalized decimals.
pub open spec fn decimal_order(a: DecimalView, b: DecimalView) -> Ordering {
    if a.negative && b.negative {
        reverse_order(magnitude_order(a, b))
    } else if a.negative {
        Ordering::Less
    } else if b.negative {
        Ordering::Greater
    } else {
        magnitude_order(a, b)
    }
}

pub open spec fn int_order(a: i64, b: i64) -> Ordering {
    if a < b {
        Ordering::Less
    } else if a > b {
        Ordering::Greater
    } else {
        Ordering::Equal
    }
}

#[derive(Debug, Clone, PartialEq)]
pub enum Value {
    Integer(i64),
    Real(Decimal),
    Text(String),
}

pub enum ValueView {
    Integer(i64),
    Real(DecimalView),
    Text(Seq<char>),
}

impl View for Value {
    type V = ValueView;

    open spec fn view(&self) -> ValueView {
        match self {
            Value::Integer(i) => ValueView::Integer(*i),
            Value::Real(d) => ValueView::Real(d@),
            Value::Text(s) => ValueView::Text(s@),
        }
    }
}

pub open spec fn value_type(v: ValueView) -> ColumnType {
    match v {
        ValueView::Integer(_) => ColumnType::Integer,
        ValueView::Real(_) => ColumnType::Real,
        ValueView::Text(_) => ColumnType::Text,
    }
}

/// How two values compare: INTEGER and REAL by numeric value, TEXT with
/// TEXT by `str` order, anything else not at all.
pub open spec fn value_order(a: ValueView, b: ValueView) -> Option<Ordering> {
    match (a, b) {
        (ValueView::Integer(x), ValueView::Integer(y)) => Some(int_order(x, y)),
        (ValueView::Real(x), ValueView::Real(y)) => Some(decimal_order(x, y)),
        (ValueView::Integer(x), ValueView::Real(y)) => Some(decimal_order(int_decimal(x), y)),
        (ValueView::Real(x), ValueView::Integer(y)) => Some(decimal_order(x, int_decimal(y))),
        (ValueView::Text(x), ValueView::Text(y)) => Some(text_order(x, y)),
        _ => None,
    }
}

/// The text that `Display` writes for a value.
pub open spec fn value_text(v: ValueView) -> Seq<char> {
    match v {
        ValueView::Integer(i) => int_text(i as int),
        ValueView::Real(d) => decimal_text(d),
        ValueView::Text(s) => s,
    }
}

pub open spec fn values_view(vs: Seq<Value>) -> Seq<ValueView> {
    vs.map_values(|v: Value| v@)
}

/// The characters of `s` from position `i` on.
pub open spec fn text_from(s: Seq<char>, i: usize) -> Seq<char> {
    s.skip(i as int)
}

/// The character at position `i`.
pub open spec fn char_at(s: Seq<char>, i: usize) -> char {
    s[i as int]
}

/// The order of two strings: by code point, a proper prefix first.
fn str_order(a: &str, b: &str) -> (r: Ordering)
    ensures
        r == text_order(a@, b@),
{
    let x = collect_chars(a);
    let y = collect_chars(b);
    let mut i: usize = 0;
    assert(text_from(a@, i) =~= a@ && text_from(b@, i) =~= b@);
    loop
        invariant
            i <= x@.len(),
            i <= y@.len(),
            x@ == a@,
            y@ == b@,
            text_order(a@, b@) == text_order(text_from(a@, i), text_from(b@, i)),
        decreases x@.len() - i,
    {
        let ghost sa = text_from(a@, i);
        let ghost sb = text_from(b@, i);
        if i == x.len() {
            assert(sa.len() == 0);
            return if i == y.len() { Ordering::Equal } else { Ordering::Less };
        }
        if i == y.len() {
            assert(sb.len() == 0);
            return Ordering::Greater;
        }
        assert(sa[0] == char_at(x@, i) && sb[0] == char_at(y@, i));
        if x[i] < y[i] {
            return Ordering::Less;
        }
        if x[i] > y[i] {
            return Ordering::Greater;
        }
        i = i + 1;
        assert(sa.drop_first() =~= text_from(a@, i));
        assert(sb.drop_first() =~= text_from(b@, i));
    }
}

/// The digits of `s` from position `i` on.
pub open spec fn skip_from(s: Seq<u8>, i: usize) -> Seq<u8> {
    s.skip(i as int)
}

/// Lexicographic comparison of two digit vectors.
fn digits_compare(a: &Vec<u8>, b: &Vec<u8>) -> (r: Ordering)
    ensures
        r == digits_order(a@, b@),
{
    let mut i: usize = 0;
    assert(skip_from(a@, i) =~= a@);
    assert(skip_from(b@, i) =~= b@);
    while i < a.len() && i < b.len()
        invariant
            i <= a@.len(),
            i <= b@.len(),
            digits_order(a@, b@) == digits_order(skip_from(a@, i), skip_from(b@, i)),
        decreases a@.len() - i,
    {
        if a[i] < b[i] {
            return Ordering::Less;
        }
        if a[i] > b[i] {
            return Ordering::Greater;
        }
        let ghost prev = i;
        i = i + 1;
        assert(skip_from(a@, prev).drop_first() =~= skip_from(a@, i));
        assert(skip_from(b@, prev).drop_first() =~= skip_from(b@, i));
    }
    if i < a.len() {
        Ordering::Greater
    } else if i < b.len() {
        Ordering::Less
    } else {
        Ordering::Equal
    }
}

fn reverse_ordering(o: Ordering) -> (r: Ordering)
    ensures
        r == reverse_order(o),
{
    match o {
        Ordering::Less => Ordering::Greater,
        Ordering::Equal => Ordering::Equal,
        Ordering::Greater => Ordering::Less,
    }
}

fn strip_leading_zeros_exec(ds: &Vec<u8>) -> (r: Vec<u8>)
    ensures
        r@ == strip_leading_zeros(ds@),
{
    let mut start: usize = 0;
    assert(ds@.skip(0) =~= ds@);
    while start < ds.len() && ds[start] == 0
        invariant
            start <= ds@.len(),
            strip_leading_zeros(ds@) == strip_leading_zeros(ds@.skip(start as int)),
        decreases ds@.len() - start,
    {
        assert(ds@.skip(start as int).drop_first() =~= ds@.skip(start + 1));
        start = start + 1;
    }
    let mut r: Vec<u8> = Vec::new();
    let mut i: usize = start;
    while i < ds.len()
        invariant
            start <= i <= ds@.len(),
            r@ == ds@.subrange(start as int, i as int),
        decreases ds@.len() - i,
    {
        r.push(ds[i]);
        assert(ds@.subrange(start as int, i + 1) =~= ds@.subrange(start as int, i as int).push(ds@[i as int]));
        i = i + 1;
    }
    assert(ds@.skip(start as int) =~= ds@.subrange(start as int, ds@.len() as int));
    r
}

pub(crate) fn strip_trailing_zeros_exec(ds: &Vec<u8>) -> (r: Vec<u8>)
    ensures
        r@ == strip_trailing_zeros(ds@),
{
    let mut end: usize = ds.len();
    assert(ds@.take(ds@.len() as int) =~= ds@);
    while end > 0 && ds[end - 1] == 0
        invariant
            end <= ds@.len(),
            strip_trailing_zeros(ds@) == strip_trailing_zeros(ds@.take(end as int)),
        decreases end,
    {
        assert(ds@.take(end as int).drop_last() =~= ds@.take(end - 1));
        end = end - 1;
    }
    let mut r: Vec<u8> = Vec::new();
    let mut i: usize = 0;
    while i < end
        invariant
            i <= end <= ds@.len(),
            r@ == ds@.take(i as int),
        decreases end - i,
    {
        r.push(ds[i]);
        assert(ds@.take(i + 1) =~= ds@.take(i as int).push(ds@[i as int]));
        i = i + 1;
    }
    r
}

proof fn lemma_strip_leading(ds: Seq<u8>)
    requires
        all_digits(ds),
    ensures
        all_digits(strip_leading_zeros(ds)),
        strip_leading_zeros(ds).len() > 0 ==> strip_leading_zeros(ds)[0] != 0,
    decreases ds.len(),
{
    if ds.len() > 0 && ds[0] == 0 {
        assert forall|i: int| 0 <= i < ds.drop_first().len() implies #[trigger] ds.drop_first()[i] < 10 by {
            assert(ds.drop_first()[i] == ds[i + 1]);
        }
        lemma_strip_leading(ds.drop_first());
    }
}

proof fn lemma_strip_trailing(ds: Seq<u8>)
    requires
        all_digits(ds),
    ensures
        all_digits(strip_trailing_zeros(ds)),
        strip_trailing_zeros(ds).len() > 0 ==> strip_trailing_zeros(ds).last() != 0,
    decreases ds.len(),
{
    if ds.len() > 0 && ds.last() == 0 {
        assert forall|i: int| 0 <= i < ds.drop_last().len() implies #[trigger] ds.drop_last()[i] < 10 by {
            assert(ds.drop_last()[i] == ds[i]);
        }
        lemma_strip_trailing(ds.drop_last());
    }
}

impl Decimal {
    /// The normalized decimal written with the given sign and digits, or
    /// `None` when some digit is not below ten.
    pub fn new(negative: bool, int_digits: &Vec<u8>, frac_digits: &Vec<u8>) -> (r: Option<Decimal>)
        ensures
            r is Some <==> all_digits(int_digits@) && all_digits(frac_digits@),
            r matches Some(d) ==> d@ == normalize_decimal(negative, int_digits@, frac_digits@),
            r matches Some(d) ==> decimal_wf(d@),
    {
        let mut i: usize = 0;
        while i < int_digits.len()
            invariant
                i <= int_digits@.len(),
                forall|k: int| 0 <= k < i ==> #[trigger] int_digits@[k] < 10,
            decreases int_digits@.len() - i,
        {
            if int_digits[i] >= 10 {
                return None;
            }
            i = i + 1;
        }
        let mut j: usize = 0;
        while j < frac_digits.len()
            invariant
                j <= frac_digits@.len(),
                forall|k: int| 0 <= k < j ==> #[trigger] frac_digits@[k] < 10,
            decreases frac_digits@.len() - j,
        {
            if frac_digits[j] >= 10 {
                return None;
            }
            j = j + 1;
        }
        let ip = strip_leading_zeros_exec(int_digits);
        let fp = strip_trailing_zeros_exec(frac_digits);
        proof {
            lemma_strip_leading(int_digits@);
            lemma_strip_trailing(frac_digits@);
        }
        let neg = negative && (ip.len() > 0 || fp.len() > 0);
        Some(Decimal { negative: neg, int_digits: ip, frac_digits: fp })
    }

    /// The decimal holding an integer.
    pub fn from_integer(i: i64) -> (r: Decimal)
        ensures
            r@ == int_decimal(i),
            decimal_wf(r@),
    {
        let magnitude: u64 = if i == i64::MIN {
            9223372036854775808u64
        } else if i < 0 {
            (-i) as u64
        } else {
            i as u64
        };
        let mut ds: Vec<u8> = Vec::new();
        push_nat_digits(magnitude, &mut ds);
        assert(ds@ =~= nat_digits(magnitude as nat));
        proof {
            lemma_nat_digits_small(magnitude as nat);
            lemma_nat_digits_lead(magnitude as nat);
        }
        Decimal { negative: i < 0, int_digits: ds, frac_digits: Vec::new() }
    }

    /// A copy of the number.
    pub fn duplicate(&self) -> (r: Decimal)
        ensures
            r@ == self@,
    {
        let a = self.int_digits.clone();
        let b = self.frac_digits.clone();
        assert(a@ =~= self.int_digits@);
        assert(b@ =~= self.frac_digits@);
        Decimal { negative: self.negative, int_digits: a, frac_digits: b }
    }

    /// The order of two decimals by numeric value.
    pub fn compare(&self, other: &Decimal) -> (r: Ordering)
        ensures
            r == decimal_order(self@, other@),
    {
        let mag = if self.int_digits.len() < other.int_digits.len() {
            Ordering::Less
        } else if self.int_digits.len() > other.int_digits.len() {
            Ordering::Greater
        } else {
            match digits_compare(&self.int_digits, &other.int_digits) {
                Ordering::Equal => digits_compare(&self.frac_digits, &other.frac_digits),
                o => o,
            }
        };
        if self.negative && other.negative {
            reverse_ordering(mag)
        } else if self.negative {
            Ordering::Less
        } else if other.negative {
            Ordering::Greater
        } else {
            mag
        }
    }

    /// Appends the text of the number (as `Display` writes it) to `s`.
    pub fn push_text(&self, s: &mut String)
        ensures
            final(s)@ == old(s)@ + decimal_text(self@),
    {
        let ghost s0 = old(s)@;
        if self.negative {
            push_char(s, '-');
        }
        let ghost s1 = s@;
        if self.int_digits.len() == 0 {
            push_char(s, '0');
        } else {
            push_digits_text(s, &self.int_digits);
        }
        let ghost s2 = s@;
        if self.frac_digits.len() > 0 {
            push_char(s, '.');
            push_digits_text(s, &self.frac_digits);
        }
        proof {
            let d = self@;
            let sign: Seq<char> = if d.negative { seq!['-'] } else { Seq::empty() };
            let int_part: Seq<char> = if d.int_digits.len() == 0 { seq!['0'] } else { digits_text(d.int_digits) };
            let frac_part: Seq<char> = if d.frac_digits.len() == 0 {
                Seq::empty()
            } else {
                seq!['.'] + digits_text(d.frac_digits)
            };
            assert(s1 =~= s0 + sign);
            assert(s2 =~= s1 + int_part);
            assert(s@ =~= s2 + frac_part);
            assert(s@ =~= s0 + (sign + int_part + frac_part));
        }
    }
}

proof fn lemma_nat_digits_lead(n: nat)
    ensures
        nat_digits(n).len() > 0 ==> nat_digits(n)[0] != 0,
    decreases n,
{
    if n > 0 {
        lemma_nat_digits_lead(n / 10);
        if n / 10 == 0 {
            assert(nat_digits(n / 10).len() == 0);
            assert(nat_digits(n)[0] == (n % 10) as u8);
            assert(n % 10 == n);
        } else {
            assert(nat_digits(n)[0] == nat_digits(n / 10)[0]);
        }
    }
}

impl Value {
    pub fn type_of(&self) -> (t: ColumnType)
        ensures
            t == value_type(self@),
    {
        match self {
            Value::Integer(_) => ColumnType::Integer,
            Value::Real(_) => ColumnType::Real,
            Value::Text(_) => ColumnType::Text,
        }
    }

    /// Value equality/ordering across INTEGER and REAL is allowed (2 = 2.0),
    /// TEXT only compares to TEXT.
    pub fn partial_compare(&self, other: &Value) -> (r: Option<Ordering>)
        ensures
            r == value_order(self@, other@),
    {
        match (self, other) {
            (Value::Integer(a), Value::Integer(b)) => {
                if *a < *b {
                    Some(Ordering::Less)
                } else if *a > *b {
                    Some(Ordering::Greater)
                } else {
                    Some(Ordering::Equal)
                }
            },
            (Value::Real(a), Value::Real(b)) => Some(a.compare(b)),
            (Value::Integer(a), Value::Real(b)) => Some(Decimal::from_integer(*a).compare(b)),
            (Value::Real(a), Value::Integer(b)) => Some(a.compare(&Decimal::from_integer(*b))),
            (Value::Text(a), Value::Text(b)) => Some(str_order(a.as_str(), b.as_str())),
            _ => None,
        }
    }

    /// A copy of the value.
    pub fn duplicate(&self) -> (r: Value)
        ensures
            r@ == self@,
    {
        match self {
            Value::Integer(i) => Value::Integer(*i),
            Value::Real(d) => Value::Real(d.duplicate()),
            Value::Text(s) => Value::Text(s.clone()),
        }
    }

    /// Appends the text of the value (as `Display` writes it) to `s`.
    pub fn push_text(&self, s: &mut String)
        ensures
            final(s)@ == old(s)@ + value_text(self@),
    {
        match self {
            Value::Integer(i) => push_i64_text(s, *i),
            Value::Real(d) => d.push_text(s),
            Value::Text(t) => s.append(t.as_str()),
        }
    }
}


proof fn lemma_digits_order_reverse(a: Seq<u8>, b: Seq<u8>)
    ensures
        digits_order(b, a) == reverse_order(digits_order(a, b)),
        digits_order(a, a) == Ordering::Equal,
    decreases a.len(),
{
    if a.len() > 0 && b.len() > 0 {
        lemma_digits_order_reverse(a.drop_first(), b.drop_first());
    }
    if a.len() > 0 {
        lemma_digits_order_reverse(a.drop_first(), a.drop_first());
    }
}

proof fn lemma_text_order_reverse(a: Seq<char>, b: Seq<char>)
    ensures
        text_order(b, a) == reverse_order(text_order(a, b)),
    decreases a.len(),
{
    if a.len() > 0 && b.len() > 0 {
        lemma_text_order_reverse(a.drop_first(), b.drop_first());
    }
}

proof fn lemma_magnitude_order_reverse(a: DecimalView, b: DecimalView)
    ensures
        magnitude_order(b, a) == reverse_order(magnitude_order(a, b)),
        magnitude_order(a, a) == Ordering::Equal,
{
    lemma_digits_order_reverse(a.int_digits, b.int_digits);
    lemma_digits_order_reverse(a.frac_digits, b.frac_digits);
}

/// Comparing two values the other way round gives the reverse answer:
/// `a < b` exactly when `b > a`, equal either way or not comparable either
/// way.
pub proof fn law_value_order_antisymmetric(a: ValueView, b: ValueView)
    ensures
        value_order(b, a) == match value_order(a, b) {
            Some(o) => Some(reverse_order(o)),
            None => None::<Ordering>,
        },
{
    match (a, b) {
        (ValueView::Text(x), ValueView::Text(y)) => lemma_text_order_reverse(x, y),
        (ValueView::Integer(x), ValueView::Integer(y)) => {},
        (ValueView::Real(x), ValueView::Real(y)) => lemma_magnitude_order_reverse(x, y),
        (ValueView::Integer(x), ValueView::Real(y)) => lemma_magnitude_order_reverse(int_decimal(x), y),
        (ValueView::Real(x), ValueView::Integer(y)) => lemma_magnitude_order_reverse(x, int_decimal(y)),
        _ => {},
    }
}

/// An INTEGER and the REAL with the same value compare equal (`2 = 2.0`).
pub proof fn law_integer_equals_same_real(i: i64)
    ensures
        value_order(ValueView::Integer(i), ValueView::Real(int_decimal(i))) == Some(Ordering::Equal),
        value_order(ValueView::Real(int_decimal(i)), ValueView::Integer(i)) == Some(Ordering::Equal),
{
    lemma_magnitude_order_reverse(int_decimal(i), int_decimal(i));
}

/// TEXT compares only with TEXT: a TEXT value and a number are not
/// ordered either way.
pub proof fn law_text_only_compares_with_text(a: ValueView, b: ValueView)
    requires
        (value_type(a) == ColumnType::Text) != (value_type(b) == ColumnType::Text),
    ensures
        value_order(a, b) is None,
        value_order(b, a) is None,
{
}


proof fn lemma_text_order_refl(a: Seq<char>)
    ensures
        text_order(a, a) == Ordering::Equal,
    decreases a.len(),
{
    if a.len() > 0 {
        lemma_text_order_refl(a.drop_first());
    }
}

/// Every value compares equal to itself.
pub proof fn law_value_order_reflexive(v: ValueView)
    ensures
        value_order(v, v) == Some(Ordering::Equal),
{
    match v {
        ValueView::Text(x) => lemma_text_order_refl(x),
        ValueView::Real(x) => lemma_magnitude_order_reverse(x, x),
        ValueView::Integer(_) => {},
    }
}

/// TEXT order puts a proper prefix first: `a` comes before `a` followed by
/// anything more, and the empty text before every other.
pub proof fn law_text_prefix_comes_first(a: Seq<char>, b: Seq<char>)
    requires
        b.len() > 0,
    ensures
        text_order(a, a + b) == Ordering::Less,
        text_order(a + b, a) == Ordering::Greater,
        value_order(ValueView::Text(a), ValueView::Text(a + b)) == Some(Ordering::Less),
        text_order(Seq::empty(), b) == Ordering::Less,
    decreases a.len(),
{
    if a.len() > 0 {
        law_text_prefix_comes_first(a.drop_first(), b);
        assert((a + b).drop_first() =~= a.drop_first() + b);
        assert((a + b)[0] == a[0]);
    }
}

/// TEXT order is decided by the first position where the texts differ:
/// the one with the smaller character there comes first.
pub proof fn law_text_first_difference_decides(a: Seq<char>, b: Seq<char>, i: int)
    requires
        0 <= i < a.len(),
        i < b.len(),
        a.take(i) == b.take(i),
        a[i] < b[i],
    ensures
        text_order(a, b) == Ordering::Less,
        text_order(b, a) == Ordering::Greater,
    decreases i,
{
    if i > 0 {
        assert(a[0] == a.take(i)[0] && b[0] == b.take(i)[0]);
        assert(a.drop_first().take(i - 1) =~= a.take(i).drop_first());
        assert(b.drop_first().take(i - 1) =~= b.take(i).drop_first());
        law_text_first_difference_decides(a.drop_first(), b.drop_first(), i - 1);
    }
}

} // verus!
