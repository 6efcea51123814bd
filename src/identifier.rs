//! Names of batches: the address of the operator that produced them and the
//! index of its trace, with a dot-joined text form that reads back exactly.

use vstd::prelude::*;

verus! {

/// The character of a decimal digit `d < 10`.
pub open spec fn digit_char(d: nat) -> char {
    if d == 0 {
        '0'
    } else if d == 1 {
        '1'
    } else if d == 2 {
        '2'
    } else if d == 3 {
        '3'
    } else if d == 4 {
        '4'
    } else if d == 5 {
        '5'
    } else if d == 6 {
        '6'
    } else if d == 7 {
        '7'
    } else if d == 8 {
        '8'
    } else {
        '9'
    }
}

pub open spec fn is_digit(c: char) -> bool {
    c == '0' || c == '1' || c == '2' || c == '3' || c == '4' || c == '5' || c == '6' || c == '7'
        || c == '8' || c == '9'
}

/// The value of a digit character (zero for any other character).
pub open spec fn digit_value(c: char) -> nat {
    if c == '1' {
        1
    } else if c == '2' {
        2
    } else if c == '3' {
        3
    } else if c == '4' {
        4
    } else if c == '5' {
        5
    } else if c == '6' {
        6
    } else if c == '7' {
        7
    } else if c == '8' {
        8
    } else if c == '9' {
        9
    } else {
        0
    }
}

/// The decimal digits of `n`, most significant first, without leading zeros.
pub open spec fn decimal(n: nat) -> Seq<char>
    decreases n,
{
    if n < 10 {
        seq![digit_char(n)]
    } else {
        decimal(n / 10).push(digit_char(n % 10))
    }
}

/// The number that a string of digits denotes.
pub open spec fn digits_value(s: Seq<char>) -> nat
    decreases s.len(),
{
    if s.len() == 0 {
        0
    } else {
        digits_value(s.drop_last()) * 10 + digit_value(s.last())
    }
}

/// The decimal forms of `parts`, joined by dots.
pub open spec fn joined(parts: Seq<usize>) -> Seq<char>
    decreases parts.len(),
{
    if parts.len() == 0 {
        Seq::empty()
    } else if parts.len() == 1 {
        decimal(parts[0] as nat)
    } else {
        joined(parts.drop_last()) + seq!['.'] + decimal(parts.last() as nat)
    }
}

/// The fields of `s` between dots; there is always at least one.
pub open spec fn fields(s: Seq<char>) -> Seq<Seq<char>>
    decreases s.len(),
{
    if s.len() == 0 {
        seq![Seq::empty()]
    } else {
        let f = fields(s.drop_last());
        if s.last() == '.' {
            f.push(Seq::empty())
        } else {
            f.update(f.len() - 1, f.last().push(s.last()))
        }
    }
}

pub open spec fn is_number_field(f: Seq<char>) -> bool {
    &&& f.len() > 0
    &&& forall|i: int| 0 <= i < f.len() ==> is_digit(#[trigger] f[i])
    &&& digits_value(f) <= usize::MAX
}

/// Text that names a batch: dot-separated, non-empty decimal numbers that fit in `usize`.
pub open spec fn is_identifier_text(s: Seq<char>) -> bool {
    forall|j: int| 0 <= j < fields(s).len() ==> is_number_field(#[trigger] fields(s)[j])
}

/// The numbers that the fields of `s` denote.
pub open spec fn parsed_parts(s: Seq<char>) -> Seq<usize> {
    fields(s).map_values(|f: Seq<char>| digits_value(f) as usize)
}

/// Identifies the operator instance (and its trace) that produced a batch.
#[derive(Clone, Debug, PartialEq, Eq)]
pub struct BatchIdentifier {
    pub address: Vec<usize>,
    pub trace_id: usize,
}

impl BatchIdentifier {
    /// The address components followed by the trace id.
    pub open spec fn parts(&self) -> Seq<usize> {
        self.address@.push(self.trace_id)
    }

    pub fn new(address: Vec<usize>, trace_id: usize) -> (r: Self)
        ensures
            r.address@ == address@,
            r.trace_id == trace_id,
            r.parts() == address@.push(trace_id),
    {
        BatchIdentifier { address, trace_id }
    }

    pub fn address(&self) -> (r: &Vec<usize>)
        ensures
            r@ == self.address@,
    {
        &self.address
    }

    pub fn trace_id(&self) -> (r: usize)
        ensures
            r == self.trace_id,
    {
        self.trace_id
    }

    pub fn copy(&self) -> (r: Self)
        ensures
            r.address@ == self.address@,
            r.trace_id == self.trace_id,
            r.parts() == self.parts(),
    {
        let mut address: Vec<usize> = Vec::new();
        let mut j: usize = 0;
        while j < self.address.len()
            invariant
                j <= self.address@.len(),
                address@ == self.address@.take(j as int),
            decreases self.address@.len() - j,
        {
            address.push(self.address[j]);
            assert(address@ =~= self.address@.take(j + 1));
            j = j + 1;
        }
        assert(self.address@.take(self.address@.len() as int) =~= self.address@);
        BatchIdentifier { address, trace_id: self.trace_id }
    }

    /// The text form: address components and trace id, joined by dots.
    pub fn to_string(&self) -> (r: String)
        ensures
            r@ == joined(self.parts()),
    {
        let n = self.address.len();
        let ghost parts = self.parts();
        let mut s = String::new();
        let mut j: usize = 0;
        while j < n
            invariant
                n == self.address@.len(),
                parts == self.parts(),
                j <= n,
                s@ == joined(parts.take(j as int)),
            decreases n - j,
        {
            push_part(&mut s, j, self.address[j], Ghost(parts));
            j = j + 1;
        }
        push_part(&mut s, n, self.trace_id, Ghost(parts));
        assert(parts.take(n as int + 1) =~= parts);
        s
    }

    /// Reads the text form back.
    pub fn from_string(input: &str) -> (r: Self)
        requires
            is_identifier_text(input@),
        ensures
            r.parts() == parsed_parts(input@),
    {
        let ghost s = input@;
        let n = input.unicode_len();
        let mut address: Vec<usize> = Vec::new();
        let mut cur: usize = 0;
        let mut i: usize = 0;
        proof {
            assert(s.take(0) =~= Seq::<char>::empty());
        }
        while i < n
            invariant
                s == input@,
                n == s.len(),
                i <= n,
                is_identifier_text(s),
                fields(s.take(i as int)).len() == address@.len() + 1,
                forall|j: int|
                    0 <= j < address@.len() ==> address@[j] as nat == digits_value(
                        #[trigger] fields(s.take(i as int))[j],
                    ),
                cur as nat == digits_value(fields(s.take(i as int)).last()),
            decreases n - i,
        {
            let c = input.get_char(i);
            let ghost prev = fields(s.take(i as int));
            assert(s.take(i as int + 1).drop_last() =~= s.take(i as int));
            assert(s.take(i as int + 1).last() == c);
            proof {
                lemma_fields_of_prefix(s, i as int + 1);
                lemma_fields_len(s);
            }
            let ghost next = fields(s.take(i as int + 1));
            if c == '.' {
                address.push(cur);
                cur = 0;
                assert(next.last() =~= Seq::<char>::empty());
            } else {
                let ghost k = next.len() - 1;
                assert(next[k] == prev.last().push(c));
                assert(is_number_field(fields(s)[k]));
                assert(next[k] == fields(s)[k].take(next[k].len() as int));
                assert(is_digit(c)) by {
                    let m = next[k].len() as int;
                    assert(next[k][m - 1] == c);
                    assert(fields(s)[k].take(m)[m - 1] == fields(s)[k][m - 1]);
                }
                proof {
                    lemma_prefix_value_le(fields(s)[k], next[k].len() as int);
                }
                assert(next[k].drop_last() =~= prev.last());
                let d = char_digit(c);
                cur = cur * 10 + d;
            }
            i = i + 1;
        }
        assert(s.take(n as int) =~= s);
        let r = BatchIdentifier { address, trace_id: cur };
        assert(r.parts() =~= parsed_parts(s));
        r
    }
}

/// `n` in decimal, with zeros in front to make up `width` characters.
pub open spec fn zero_padded(n: nat, width: nat) -> Seq<char> {
    if decimal(n).len() >= width {
        decimal(n)
    } else {
        Seq::new((width - decimal(n).len()) as nat, |i: int| '0') + decimal(n)
    }
}

/// The text of a duration: seconds in twenty digits, then nanoseconds in
/// nine, so that the order of texts is the order of durations.
pub open spec fn duration_text(secs: nat, nanos: nat) -> Seq<char> {
    zero_padded(secs, 20) + zero_padded(nanos, 9)
}

/// The file that holds the durable copy of a batch of `id` written at the
/// given time since the epoch.
pub open spec fn durable_name(id: BatchIdentifier, secs: nat, nanos: nat) -> Seq<char> {
    "durability/"@ + joined(id.parts()) + seq!['-'] + duration_text(secs, nanos) + ".abom"@
}

/// Formats a duration given as whole seconds and the nanoseconds past them.
pub fn duration_to_string(secs: u64, nanos: u32) -> (r: String)
    requires
        nanos < 1_000_000_000,
    ensures
        r@ == duration_text(secs as nat, nanos as nat),
{
    let mut s = String::new();
    push_padded(&mut s, secs, 20);
    push_padded(&mut s, nanos as u64, 9);
    assert(s@ =~= duration_text(secs as nat, nanos as nat));
    s
}

/// The name of the durable file for a batch of `id` written at a time since the epoch.
pub fn durable_file_name(id: &BatchIdentifier, secs: u64, nanos: u32) -> (r: String)
    requires
        nanos < 1_000_000_000,
    ensures
        r@ == durable_name(*id, secs as nat, nanos as nat),
{
    let mut s = String::new();
    s.append("durability/");
    let name = id.to_string();
    s.append(name.as_str());
    s.append("-");
    let time = duration_to_string(secs, nanos);
    s.append(time.as_str());
    s.append(".abom");
    proof {
        reveal_strlit("-");
    }
    assert(s@ =~= durable_name(*id, secs as nat, nanos as nat));
    s
}

fn decimal_len(n: u64) -> (r: usize)
    ensures
        r as nat == decimal(n as nat).len(),
        r <= 20,
    decreases n,
{
    if n < 10 {
        1
    } else {
        let k = decimal_len(n / 10);
        if k == 20 {
            assert(n / 10 >= 10000000000000000000u64) by {
                lemma_decimal_len_bound(n as nat / 10);
            }
        }
        k + 1
    }
}

/// A number of `k + 1` digits is at least ten to the `k`.
proof fn lemma_decimal_len_bound(n: nat)
    ensures
        decimal(n).len() >= 20 ==> n >= 10000000000000000000,
        decimal(n).len() >= 19 ==> n >= 1000000000000000000,
        decimal(n).len() >= 18 ==> n >= 100000000000000000,
        decimal(n).len() >= 17 ==> n >= 10000000000000000,
        decimal(n).len() >= 16 ==> n >= 1000000000000000,
        decimal(n).len() >= 15 ==> n >= 100000000000000,
        decimal(n).len() >= 14 ==> n >= 10000000000000,
        decimal(n).len() >= 13 ==> n >= 1000000000000,
        decimal(n).len() >= 12 ==> n >= 100000000000,
        decimal(n).len() >= 11 ==> n >= 10000000000,
        decimal(n).len() >= 10 ==> n >= 1000000000,
        decimal(n).len() >= 9 ==> n >= 100000000,
        decimal(n).len() >= 8 ==> n >= 10000000,
        decimal(n).len() >= 7 ==> n >= 1000000,
        decimal(n).len() >= 6 ==> n >= 100000,
        decimal(n).len() >= 5 ==> n >= 10000,
        decimal(n).len() >= 4 ==> n >= 1000,
        decimal(n).len() >= 3 ==> n >= 100,
        decimal(n).len() >= 2 ==> n >= 10,
    decreases n,
{
    if n >= 10 {
        lemma_decimal_len_bound(n / 10);
    }
}

fn push_padded(s: &mut String, n: u64, width: usize)
    ensures
        final(s)@ == old(s)@ + zero_padded(n as nat, width as nat),
{
    let len = decimal_len(n);
    let ghost start = s@;
    let mut k: usize = len;
    while k < width
        invariant
            len as nat == decimal(n as nat).len(),
            len <= k,
            k <= width || k == len,
            s@ == start + Seq::new((k - len) as nat, |i: int| '0'),
        decreases width - k,
    {
        s.append(zero_text());
        assert(s@ =~= start + Seq::new((k + 1 - len) as nat, |i: int| '0'));
        k = k + 1;
    }
    push_decimal(s, n);
    if len >= width {
        assert(s@ =~= start + zero_padded(n as nat, width as nat));
    } else {
        assert(s@ =~= start + zero_padded(n as nat, width as nat));
    }
}

fn zero_text() -> (r: &'static str)
    ensures
        r@ == seq!['0'],
{
    proof {
        reveal_strlit("0");
    }
    "0"
}

/// Appends the `j`-th part of `parts` to the text of the parts before it.
fn push_part(s: &mut String, j: usize, part: usize, Ghost(parts): Ghost<Seq<usize>>)
    requires
        j < parts.len(),
        parts[j as int] == part,
        old(s)@ == joined(parts.take(j as int)),
    ensures
        final(s)@ == joined(parts.take(j as int + 1)),
{
    assert(parts.take(j as int + 1).drop_last() == parts.take(j as int));
    assert(parts.take(j as int + 1).last() == part);
    if j > 0 {
        s.append(dot_text());
    }
    push_decimal(s, part as u64);
    assert(final(s)@ =~= joined(parts.take(j as int + 1)));
}

fn dot_text() -> (r: &'static str)
    ensures
        r@ == seq!['.'],
{
    proof {
        reveal_strlit(".");
    }
    "."
}

fn digit_text(d: usize) -> (r: &'static str)
    requires
        d < 10,
    ensures
        r@ == seq![digit_char(d as nat)],
{
    proof {
        reveal_strlit("0");
        reveal_strlit("1");
        reveal_strlit("2");
        reveal_strlit("3");
        reveal_strlit("4");
        reveal_strlit("5");
        reveal_strlit("6");
        reveal_strlit("7");
        reveal_strlit("8");
        reveal_strlit("9");
    }
    if d == 0 {
        "0"
    } else if d == 1 {
        "1"
    } else if d == 2 {
        "2"
    } else if d == 3 {
        "3"
    } else if d == 4 {
        "4"
    } else if d == 5 {
        "5"
    } else if d == 6 {
        "6"
    } else if d == 7 {
        "7"
    } else if d == 8 {
        "8"
    } else {
        "9"
    }
}

fn char_digit(c: char) -> (r: usize)
    requires
        is_digit(c),
    ensures
        r as nat == digit_value(c),
        r < 10,
{
    if c == '1' {
        1
    } else if c == '2' {
        2
    } else if c == '3' {
        3
    } else if c == '4' {
        4
    } else if c == '5' {
        5
    } else if c == '6' {
        6
    } else if c == '7' {
        7
    } else if c == '8' {
        8
    } else if c == '9' {
        9
    } else {
        0
    }
}

fn push_decimal(s: &mut String, n: u64)
    ensures
        final(s)@ == old(s)@ + decimal(n as nat),
    decreases n,
{
    if n >= 10 {
        push_decimal(s, n / 10);
    }
    s.append(digit_text((n % 10) as usize));
    assert(final(s)@ =~= old(s)@ + decimal(n as nat));
}

/// Writing an identifier as text and reading the text back gives the same
/// identifier: the text is always readable, and it reads as the same parts.
pub proof fn identifier_round_trip(id: BatchIdentifier)
    ensures
        is_identifier_text(joined(id.parts())),
        parsed_parts(joined(id.parts())) == id.parts(),
{
    let parts = id.parts();
    lemma_fields_joined(parts);
    let f = fields(joined(parts));
    assert forall|j: int| 0 <= j < f.len() implies is_number_field(#[trigger] f[j]) by {
        lemma_decimal(parts[j] as nat);
    }
    assert forall|j: int| 0 <= j < parts.len() implies #[trigger] parsed_parts(joined(parts))[j]
        == parts[j] by {
        lemma_decimal(parts[j] as nat);
    }
    assert(parsed_parts(joined(parts)) =~= parts);
}

proof fn lemma_decimal(n: nat)
    ensures
        decimal(n).len() > 0,
        forall|i: int| 0 <= i < decimal(n).len() ==> is_digit(#[trigger] decimal(n)[i]),
        digits_value(decimal(n)) == n,
    decreases n,
{
    if n >= 10 {
        lemma_decimal(n / 10);
        assert(decimal(n).drop_last() == decimal(n / 10));
        assert(n == (n / 10) * 10 + n % 10) by (nonlinear_arith);
        let d = n % 10;
        assert(d < 10);
        assert(digit_value(digit_char(d)) == d);
        assert(decimal(n).last() == digit_char(d));
        assert(decimal(n).len() > 0);
        assert(digits_value(decimal(n)) == digits_value(decimal(n / 10)) * 10 + d);
    } else {
        assert(decimal(n).drop_last() =~= Seq::<char>::empty());
        assert(digit_value(digit_char(n)) == n);
        assert(digits_value(decimal(n)) == digits_value(decimal(n).drop_last()) * 10 + digit_value(
            decimal(n).last(),
        ));
    }
}

/// Appending text without dots extends the last field.
proof fn lemma_fields_append(x: Seq<char>, y: Seq<char>)
    requires
        forall|i: int| 0 <= i < y.len() ==> #[trigger] y[i] != '.',
    ensures
        fields(x + y) == fields(x).update(fields(x).len() - 1, fields(x).last() + y),
    decreases y.len(),
{
    lemma_fields_len(x);
    if y.len() == 0 {
        assert(x + y =~= x);
        assert(fields(x).last() + y =~= fields(x).last());
        assert(fields(x).update(fields(x).len() - 1, fields(x).last()) =~= fields(x));
    } else {
        let y0 = y.drop_last();
        lemma_fields_append(x, y0);
        assert((x + y).drop_last() =~= x + y0);
        assert((x + y).last() == y.last());
        assert(fields(x).last() + y0 + seq![y.last()] =~= fields(x).last() + y);
        assert((fields(x).last() + y0).push(y.last()) =~= fields(x).last() + y);
        assert(fields(x + y) =~= fields(x).update(fields(x).len() - 1, fields(x).last() + y));
    }
}

proof fn lemma_fields_joined(parts: Seq<usize>)
    requires
        parts.len() >= 1,
    ensures
        fields(joined(parts)) == parts.map_values(|p: usize| decimal(p as nat)),
    decreases parts.len(),
{
    let last = decimal(parts.last() as nat);
    lemma_decimal(parts.last() as nat);
    if parts.len() == 1 {
        lemma_fields_append(Seq::empty(), last);
        assert(Seq::<char>::empty() + last =~= last);
        assert(fields(Seq::<char>::empty()) =~= seq![Seq::<char>::empty()]);
        assert(Seq::<char>::empty() + last =~= last);
        assert(fields(joined(parts)) =~= parts.map_values(|p: usize| decimal(p as nat)));
    } else {
        let init = parts.drop_last();
        lemma_fields_joined(init);
        let head = joined(init) + seq!['.'];
        assert(head.drop_last() =~= joined(init));
        assert(fields(head) == fields(joined(init)).push(Seq::empty()));
        lemma_fields_append(head, last);
        assert(Seq::<char>::empty() + last =~= last);
        assert(fields(joined(parts)) =~= parts.map_values(|p: usize| decimal(p as nat)));
    }
}

proof fn lemma_fields_len(s: Seq<char>)
    ensures
        fields(s).len() >= 1,
    decreases s.len(),
{
    if s.len() > 0 {
        lemma_fields_len(s.drop_last());
    }
}

/// The fields of a prefix of `s`: all but the last are fields of `s`, and the
/// last is a prefix of the field of `s` at the same place.
proof fn lemma_fields_of_prefix(s: Seq<char>, k: int)
    requires
        0 <= k <= s.len(),
    ensures
        fields(s.take(k)).len() <= fields(s).len(),
        forall|j: int|
            0 <= j < fields(s.take(k)).len() - 1 ==> #[trigger] fields(s.take(k))[j] == fields(s)[j],
        fields(s.take(k)).last().len() <= fields(s)[fields(s.take(k)).len() - 1].len(),
        fields(s.take(k)).last() == fields(s)[fields(s.take(k)).len() - 1].take(
            fields(s.take(k)).last().len() as int,
        ),
    decreases s.len(),
{
    lemma_fields_len(s.take(k));
    lemma_fields_len(s);
    if k == s.len() {
        assert(s.take(k) =~= s);
        assert(fields(s).last() =~= fields(s).last().take(fields(s).last().len() as int));
    } else {
        let t = s.drop_last();
        assert(s.take(k) =~= t.take(k));
        lemma_fields_of_prefix(t, k);
        lemma_fields_len(t);
        let ft = fields(t);
        let fk = fields(t.take(k));
        let i = fk.len() - 1;
        if s.last() == '.' {
            assert(fields(s) == ft.push(Seq::empty()));
        } else {
            assert(fields(s) == ft.update(ft.len() - 1, ft.last().push(s.last())));
            if i == ft.len() - 1 {
                assert(ft.last().push(s.last()).take(fk.last().len() as int) =~= ft.last().take(
                    fk.last().len() as int,
                ));
            }
        }
    }
}

proof fn lemma_prefix_value_le(f: Seq<char>, m: int)
    requires
        0 <= m <= f.len(),
    ensures
        digits_value(f.take(m)) <= digits_value(f),
    decreases f.len(),
{
    if m < f.len() {
        assert(f.take(m) =~= f.drop_last().take(m));
        lemma_prefix_value_le(f.drop_last(), m);
    } else {
        assert(f.take(m) =~= f);
    }
}

} // verus!
