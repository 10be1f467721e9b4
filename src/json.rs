use vstd::prelude::*;

verus! {

/// A JSON document. A number keeps the text under which it was written.
#[derive(Debug, PartialEq, Eq)]
pub enum Json {
    Null,
    Bool(bool),
    Num(String),
    Str(String),
    Arr(Vec<Json>),
    Obj(Vec<(String, Json)>),
}

/// The mathematical form of a `Json` document.
pub enum JsonV {
    Null,
    Bool(bool),
    Num(Seq<char>),
    Str(Seq<char>),
    Arr(Seq<JsonV>),
    Obj(Seq<(Seq<char>, JsonV)>),
}

pub open spec fn json_view(j: Json) -> JsonV
    decreases j,
{
    match j {
        Json::Null => JsonV::Null,
        Json::Bool(b) => JsonV::Bool(b),
        Json::Num(t) => JsonV::Num(t@),
        Json::Str(s) => JsonV::Str(s@),
        Json::Arr(v) => JsonV::Arr(items_view(v@)),
        Json::Obj(v) => JsonV::Obj(entries_view(v@)),
    }
}

pub open spec fn items_view(s: Seq<Json>) -> Seq<JsonV>
    decreases s,
{
    if s.len() == 0 {
        Seq::empty()
    } else {
        items_view(s.drop_last()).push(json_view(s.last()))
    }
}

pub open spec fn entries_view(s: Seq<(String, Json)>) -> Seq<(Seq<char>, JsonV)>
    decreases s,
{
    if s.len() == 0 {
        Seq::empty()
    } else {
        entries_view(s.drop_last()).push((s.last().0@, json_view(s.last().1)))
    }
}

impl View for Json {
    type V = JsonV;

    open spec fn view(&self) -> JsonV {
        json_view(*self)
    }
}


pub proof fn lemma_items_view(s: Seq<Json>)
    ensures
        items_view(s).len() == s.len(),
        forall|i: int| 0 <= i < s.len() ==> #[trigger] items_view(s)[i] == json_view(s[i]),
    decreases s.len(),
{
    if s.len() > 0 {
        lemma_items_view(s.drop_last());
    }
}

pub proof fn lemma_entries_view(s: Seq<(String, Json)>)
    ensures
        entries_view(s).len() == s.len(),
        forall|i: int|
            0 <= i < s.len() ==> #[trigger] entries_view(s)[i] == (s[i].0@, json_view(s[i].1)),
    decreases s.len(),
{
    if s.len() > 0 {
        lemma_entries_view(s.drop_last());
    }
}

pub open spec fn is_digit(c: char) -> bool {
    48 <= c as u32 <= 57
}

pub open spec fn all_digits(s: Seq<char>) -> bool {
    forall|i: int| 0 <= i < s.len() ==> is_digit(#[trigger] s[i])
}

/// The number that a string of decimal digits denotes.
pub open spec fn digits_value(s: Seq<char>) -> nat
    decreases s.len(),
{
    if s.len() == 0 {
        0
    } else {
        digits_value(s.drop_last()) * 10 + (s.last() as u32 - 48) as nat
    }
}

pub open spec fn digit_char(d: nat) -> char {
    if d == 0 {
        '0'
    } else if d == 1 {
        '1'
    } else if d == 2 {
        '2'
    } else if d == 3 {
        '3'
    } else if d == 4 {
        '4'
    } else if d == 5 {
        '5'
    } else if d == 6 {
        '6'
    } else if d == 7 {
        '7'
    } else if d == 8 {
        '8'
    } else {
        '9'
    }
}

/// The decimal form of `n`, without leading zeros.
pub open spec fn decimal(n: nat) -> Seq<char>
    decreases n,
{
    if n < 10 {
        seq![digit_char(n)]
    } else {
        decimal(n / 10).push(digit_char(n % 10))
    }
}

proof fn lemma_digit_char(d: nat)
    requires
        d < 10,
    ensures
        digit_char(d) as u32 == 48 + d,
{
}

/// Reading the decimal form of a number gives the number back.
pub proof fn lemma_decimal_value(n: nat)
    ensures
        all_digits(decimal(n)),
        decimal(n).len() > 0,
        digits_value(decimal(n)) == n,
    decreases n,
{
    let d = decimal(n);
    lemma_digit_char(n % 10);
    if n >= 10 {
        lemma_decimal_value(n / 10);
        assert(d.drop_last() =~= decimal(n / 10));
        assert(n == (n / 10) * 10 + n % 10) by (nonlinear_arith);
    } else {
        assert(d.drop_last() =~= Seq::<char>::empty());
        assert(digits_value(Seq::<char>::empty()) == 0);
    }
}

fn digit_of(d: u64) -> (c: char)
    requires
        d < 10,
    ensures
        c == digit_char(d as nat),
{
    if d == 0 {
        '0'
    } else if d == 1 {
        '1'
    } else if d == 2 {
        '2'
    } else if d == 3 {
        '3'
    } else if d == 4 {
        '4'
    } else if d == 5 {
        '5'
    } else if d == 6 {
        '6'
    } else if d == 7 {
        '7'
    } else if d == 8 {
        '8'
    } else {
        '9'
    }
}

/// Appends the decimal form of `n` to `out`.
pub fn push_decimal(n: u64, out: &mut Vec<char>)
    ensures
        final(out)@ == old(out)@ + decimal(n as nat),
    decreases n,
{
    if n < 10 {
        out.push(digit_of(n));
        assert(decimal(n as nat) =~= seq![digit_char(n as nat)]);
    } else {
        push_decimal(n / 10, out);
        out.push(digit_of(n % 10));
    }
}

/// Reads a string of decimal digits as an unsigned 64-bit number; `None` when
/// the string is empty, holds another character or names too large a number.
pub fn parse_decimal(s: &Vec<char>) -> (r: Option<u64>)
    ensures
        r == (if s@.len() > 0 && all_digits(s@) && digits_value(s@) <= u64::MAX {
            Some(digits_value(s@) as u64)
        } else {
            None::<u64>
        }),
{
    if s.len() == 0 {
        return None;
    }
    let mut acc: u64 = 0;
    let mut i: usize = 0;
    while i < s.len()
        invariant
            i <= s@.len(),
            all_digits(s@.take(i as int)),
            acc as nat == digits_value(s@.take(i as int)),
        decreases s@.len() - i,
    {
        let c = s[i];
        assert(s@.take(i as int + 1).drop_last() =~= s@.take(i as int));
        let cu = c as u32;
        if !(48 <= cu && cu <= 57) {
            return None;
        }
        let d = (cu - 48) as u64;
        if acc > (u64::MAX - d) / 10 {
            proof {
                if all_digits(s@) {
                    lemma_digits_value_prefix(s@, i as int + 1);
                }
            }
            return None;
        }
        acc = acc * 10 + d;
        i = i + 1;
    }
    assert(s@.take(i as int) =~= s@);
    Some(acc)
}

/// A longer string of digits never denotes a smaller number.
proof fn lemma_digits_value_prefix(s: Seq<char>, k: int)
    requires
        0 <= k <= s.len(),
        all_digits(s),
    ensures
        digits_value(s.take(k)) <= digits_value(s),
    decreases s.len(),
{
    if k == s.len() {
        assert(s.take(k) =~= s);
    } else {
        assert(s.drop_last().take(k) =~= s.take(k));
        lemma_digits_value_prefix(s.drop_last(), k);
    }
}


/// The text of `s` as a quoted JSON string, as serde_json writes it.
pub uninterp spec fn json_quote(s: Seq<char>) -> Seq<char>;

/// The document that serde_json reads from a line, `None` where it refuses the line.
pub uninterp spec fn json_parse(line: Seq<char>) -> Option<JsonV>;

/// Relies on serde_json::to_string for a `str`: the string quoted and escaped as
/// JSON, where every control character, the newline among them, is written as an
/// escape. Writing a `str` into serde_json's in-memory buffer does not fail.
#[verifier::external_body]
fn quote(s: &str) -> (r: String)
    ensures
        r@ == json_quote(s@),
        newline_free(r@),
{
    serde_json::to_string(s).unwrap_or_default()
}

pub open spec fn newline_free(s: Seq<char>) -> bool {
    forall|i: int| 0 <= i < s.len() ==> s[i] != '\n'
}

pub open spec fn opt_view(o: Option<Json>) -> Option<JsonV> {
    match o {
        Some(j) => Some(j@),
        None => None,
    }
}

#[verifier::external_type_specification]
#[verifier::external_body]
pub struct ExValue(serde_json::Value);

/// Relies on serde_json::from_str into a serde_json::Value: the document that
/// the line holds, or `None` where serde_json refuses it.
#[verifier::external_body]
pub(crate) fn parse_json(line: &str) -> (r: Option<Json>)
    ensures
        opt_view(r) == json_parse(line@),
{
    serde_json::from_str::<serde_json::Value>(line).ok().map(json_of_value)
}

/// Moves a serde_json::Value into a `Json`, variant for variant; a number
/// keeps the text that serde_json's Display gives it. Only `parse_json` uses it.
#[verifier::external_body]
fn json_of_value(v: serde_json::Value) -> Json {
    match v {
        serde_json::Value::Null => Json::Null,
        serde_json::Value::Bool(b) => Json::Bool(b),
        serde_json::Value::Number(n) => Json::Num(n.to_string()),
        serde_json::Value::String(s) => Json::Str(s),
        serde_json::Value::Array(a) => Json::Arr(a.into_iter().map(json_of_value).collect()),
        serde_json::Value::Object(m) => Json::Obj(
            m.into_iter().map(|(k, x)| (k, json_of_value(x))).collect(),
        ),
    }
}

/// Relies on str::chars: the characters of `s`, in order.
#[verifier::external_body]
pub(crate) fn chars_of(s: &str) -> (r: Vec<char>)
    ensures
        r@ == s@,
{
    s.chars().collect()
}

/// Relies on String's FromIterator<char>: a string of the given characters.
#[verifier::external_body]
pub(crate) fn string_of(cs: &Vec<char>) -> (r: String)
    ensures
        r@ == cs@,
{
    cs.iter().collect()
}

pub open spec fn json_text(j: JsonV) -> Seq<char>
    decreases j,
{
    match j {
        JsonV::Null => seq!['n', 'u', 'l', 'l'],
        JsonV::Bool(b) => if b {
            seq!['t', 'r', 'u', 'e']
        } else {
            seq!['f', 'a', 'l', 's', 'e']
        },
        JsonV::Num(t) => t,
        JsonV::Str(s) => json_quote(s),
        JsonV::Arr(items) => seq!['['] + items_text(items) + seq![']'],
        JsonV::Obj(entries) => seq!['{'] + entries_text(entries) + seq!['}'],
    }
}

/// The items of an array, separated by commas.
pub open spec fn items_text(items: Seq<JsonV>) -> Seq<char>
    decreases items,
{
    if items.len() == 0 {
        Seq::empty()
    } else if items.len() == 1 {
        json_text(items[0])
    } else {
        items_text(items.drop_last()) + seq![','] + json_text(items.last())
    }
}

/// The members of an object, `"key":value`, separated by commas.
pub open spec fn entries_text(entries: Seq<(Seq<char>, JsonV)>) -> Seq<char>
    decreases entries,
{
    if entries.len() == 0 {
        Seq::empty()
    } else {
        let last = json_quote(entries.last().0) + seq![':'] + json_text(entries.last().1);
        if entries.len() == 1 {
            last
        } else {
            entries_text(entries.drop_last()) + seq![','] + last
        }
    }
}

fn push_chars(out: &mut Vec<char>, s: &str)
    ensures
        final(out)@ == old(out)@ + s@,
        newline_free(old(out)@) && newline_free(s@) ==> newline_free(final(out)@),
{
    let mut cs = chars_of(s);
    out.append(&mut cs);
    proof {
        if newline_free(old(out)@) && newline_free(s@) {
            lemma_newline_free_concat(old(out)@, s@);
        }
    }
}

fn push_quoted(out: &mut Vec<char>, s: &str)
    ensures
        final(out)@ == old(out)@ + json_quote(s@),
        newline_free(old(out)@) ==> newline_free(final(out)@),
{
    let q = quote(s);
    push_chars(out, q.as_str());
}

fn push_char(out: &mut Vec<char>, c: char)
    ensures
        final(out)@ == old(out)@.push(c),
        newline_free(old(out)@) && c != '\n' ==> newline_free(final(out)@),
{
    out.push(c);
}

/// Appends the JSON text of `j` to `out`.
pub fn write_json(j: &Json, out: &mut Vec<char>)
    ensures
        final(out)@ == old(out)@ + json_text(j@),
        newline_free(old(out)@) && numbers_newline_free(j@) ==> newline_free(final(out)@),
    decreases j,
{
    match j {
        Json::Null => {
            out.push('n');
            out.push('u');
            out.push('l');
            out.push('l');
            assert(final(out)@ =~= old(out)@ + json_text(j@));
        },
        Json::Bool(b) => {
            if *b {
                out.push('t');
                out.push('r');
                out.push('u');
                out.push('e');
            } else {
                out.push('f');
                out.push('a');
                out.push('l');
                out.push('s');
                out.push('e');
            }
            assert(final(out)@ =~= old(out)@ + json_text(j@));
        },
        Json::Num(t) => {
            push_chars(out, t.as_str());
        },
        Json::Str(s) => {
            push_quoted(out, s.as_str());
        },
        Json::Arr(v) => {
            let ghost start = out@;
            push_char(out, '[');
            assert(start.push('[') =~= start + seq!['[']);
            proof {
                lemma_items_view(v@);
            }
            let mut i: usize = 0;
            while i < v.len()
                invariant
                    *j == Json::Arr(*v),
                    decreases_to!(*j => *v),
                    i <= v@.len(),
                    items_view(v@).len() == v@.len(),
                    forall|k: int| 0 <= k < v@.len() ==> #[trigger] items_view(v@)[k] == json_view(v@[k]),
                    out@ == start + seq!['['] + items_text(items_view(v@).take(i as int)),
                    newline_free(start) && numbers_newline_free(j@) ==> newline_free(out@),
                decreases v@.len() - i,
            {
                let ghost before = out@;
                if i > 0 {
                    push_char(out, ',');
                }
                proof {
                    vstd::std_specs::vec::axiom_vec_index_decreases(*v, i as int);
                    if numbers_newline_free(j@) {
                        lemma_items_newline_free(items_view(v@), i as int);
                    }
                }
                write_json(&v[i], out);
                proof {
                    let t = items_view(v@).take(i as int + 1);
                    assert(t.drop_last() =~= items_view(v@).take(i as int));
                    if i == 0 {
                        assert(items_view(v@).take(0) =~= Seq::<JsonV>::empty());
                    }
                    assert(out@ =~= start + seq!['['] + items_text(t));
                }
                i = i + 1;
            }
            push_char(out, ']');
            assert(items_view(v@).take(v@.len() as int) =~= items_view(v@));
            assert(final(out)@ =~= old(out)@ + json_text(j@));
        },
        Json::Obj(v) => {
            let ghost start = out@;
            push_char(out, '{');
            assert(start.push('{') =~= start + seq!['{']);
            proof {
                lemma_entries_view(v@);
            }
            let mut i: usize = 0;
            while i < v.len()
                invariant
                    *j == Json::Obj(*v),
                    decreases_to!(*j => *v),
                    i <= v@.len(),
                    entries_view(v@).len() == v@.len(),
                    forall|k: int|
                        0 <= k < v@.len() ==> #[trigger] entries_view(v@)[k] == (
                        v@[k].0@,
                        json_view(v@[k].1),
                    ),
                    out@ == start + seq!['{'] + entries_text(entries_view(v@).take(i as int)),
                    newline_free(start) && numbers_newline_free(j@) ==> newline_free(out@),
                decreases v@.len() - i,
            {
                if i > 0 {
                    push_char(out, ',');
                }
                push_quoted(out, v[i].0.as_str());
                push_char(out, ':');
                proof {
                    vstd::std_specs::vec::axiom_vec_index_decreases(*v, i as int);
                    if numbers_newline_free(j@) {
                        lemma_entries_newline_free(entries_view(v@), i as int);
                    }
                }
                write_json(&v[i].1, out);
                proof {
                    let t = entries_view(v@).take(i as int + 1);
                    assert(t.drop_last() =~= entries_view(v@).take(i as int));
                    if i == 0 {
                        assert(entries_view(v@).take(0) =~= Seq::<(Seq<char>, JsonV)>::empty());
                    }
                    assert(out@ =~= start + seq!['{'] + entries_text(t));
                }
                i = i + 1;
            }
            push_char(out, '}');
            assert(entries_view(v@).take(v@.len() as int) =~= entries_view(v@));
            assert(final(out)@ =~= old(out)@ + json_text(j@));
        },
    }
}

impl Json {
    /// A copy of this document.
    pub fn copy(&self) -> (r: Json)
        ensures
            r@ == self@,
        decreases self,
    {
        match self {
            Json::Null => Json::Null,
            Json::Bool(b) => Json::Bool(*b),
            Json::Num(t) => Json::Num(t.clone()),
            Json::Str(s) => Json::Str(s.clone()),
            Json::Arr(v) => {
                let mut out: Vec<Json> = Vec::new();
                let mut i: usize = 0;
                while i < v.len()
                    invariant
                        *self == Json::Arr(*v),
                        decreases_to!(*self => *v),
                        i <= v@.len(),
                        items_view(out@) == items_view(v@.take(i as int)),
                    decreases v@.len() - i,
                {
                    proof {
                        vstd::std_specs::vec::axiom_vec_index_decreases(*v, i as int);
                    }
                    let ghost prev = out@;
                    let x = v[i].copy();
                    out.push(x);
                    assert(out@.drop_last() =~= prev);
                    assert(v@.take(i as int + 1).drop_last() =~= v@.take(i as int));
                    i = i + 1;
                }
                assert(v@.take(v@.len() as int) =~= v@);
                Json::Arr(out)
            },
            Json::Obj(v) => {
                assert(decreases_to!(*self => *v));
                Json::Obj(copy_entries(v))
            },
        }
    }
}


/// A copy of the members of an object.
pub fn copy_entries(v: &Vec<(String, Json)>) -> (r: Vec<(String, Json)>)
    ensures
        entries_view(r@) == entries_view(v@),
    decreases v,
{
    let mut out: Vec<(String, Json)> = Vec::new();
    let mut i: usize = 0;
    while i < v.len()
        invariant
            i <= v@.len(),
            entries_view(out@) == entries_view(v@.take(i as int)),
        decreases v@.len() - i,
    {
        proof {
            vstd::std_specs::vec::axiom_vec_index_decreases(*v, i as int);
        }
        let ghost prev = out@;
        let x = (v[i].0.clone(), v[i].1.copy());
        out.push(x);
        assert(out@.drop_last() =~= prev);
        assert(v@.take(i as int + 1).drop_last() =~= v@.take(i as int));
        i = i + 1;
    }
    assert(v@.take(v@.len() as int) =~= v@);
    out
}


/// Every number in the document is written without a newline.
pub open spec fn numbers_newline_free(j: JsonV) -> bool
    decreases j,
{
    match j {
        JsonV::Num(t) => newline_free(t),
        JsonV::Arr(items) => items_newline_free(items),
        JsonV::Obj(entries) => entries_newline_free(entries),
        _ => true,
    }
}

pub open spec fn items_newline_free(items: Seq<JsonV>) -> bool
    decreases items,
{
    if items.len() == 0 {
        true
    } else {
        items_newline_free(items.drop_last()) && numbers_newline_free(items.last())
    }
}

pub open spec fn entries_newline_free(entries: Seq<(Seq<char>, JsonV)>) -> bool
    decreases entries,
{
    if entries.len() == 0 {
        true
    } else {
        entries_newline_free(entries.drop_last()) && numbers_newline_free(entries.last().1)
    }
}

pub proof fn lemma_newline_free_concat(a: Seq<char>, b: Seq<char>)
    requires
        newline_free(a),
        newline_free(b),
    ensures
        newline_free(a + b),
{
    assert forall|i: int| 0 <= i < (a + b).len() implies (a + b)[i] != '\n' by {
        if i >= a.len() {
            assert((a + b)[i] == b[i - a.len()]);
        }
    }
}

pub proof fn lemma_items_newline_free(items: Seq<JsonV>, i: int)
    requires
        items_newline_free(items),
        0 <= i < items.len(),
    ensures
        numbers_newline_free(items[i]),
    decreases items.len(),
{
    if i < items.len() - 1 {
        lemma_items_newline_free(items.drop_last(), i);
    }
}

pub proof fn lemma_entries_newline_free(entries: Seq<(Seq<char>, JsonV)>, i: int)
    requires
        entries_newline_free(entries),
        0 <= i < entries.len(),
    ensures
        numbers_newline_free(entries[i].1),
    decreases entries.len(),
{
    if i < entries.len() - 1 {
        lemma_entries_newline_free(entries.drop_last(), i);
    }
}

pub proof fn lemma_entries_newline_free_concat(a: Seq<(Seq<char>, JsonV)>, b: Seq<(Seq<char>, JsonV)>)
    ensures
        entries_newline_free(a + b) == (entries_newline_free(a) && entries_newline_free(b)),
    decreases b.len(),
{
    if b.len() == 0 {
        assert(a + b =~= a);
    } else {
        assert((a + b).drop_last() =~= a + b.drop_last());
        lemma_entries_newline_free_concat(a, b.drop_last());
    }
}

} // verus!
