use vstd::prelude::*;

use crate::json::{
    all_digits, chars_of, copy_entries, decimal, digits_value, entries_view, json_parse,
    json_text, lemma_decimal_value, lemma_entries_view, parse_decimal, parse_json, push_decimal,
    string_of, write_json, Json, JsonV, entries_newline_free, numbers_newline_free, newline_free,
    lemma_entries_newline_free_concat,
};

verus! {

broadcast use vstd::string::group_string_axioms;

pub open spec fn src_key() -> Seq<char> {
    seq!['s', 'r', 'c']
}

pub open spec fn dest_key() -> Seq<char> {
    seq!['d', 'e', 's', 't']
}

pub open spec fn body_key() -> Seq<char> {
    seq!['b', 'o', 'd', 'y']
}

pub open spec fn type_key() -> Seq<char> {
    seq!['t', 'y', 'p', 'e']
}

pub open spec fn msg_id_key() -> Seq<char> {
    seq!['m', 's', 'g', '_', 'i', 'd']
}

pub open spec fn in_reply_to_key() -> Seq<char> {
    seq!['i', 'n', '_', 'r', 'e', 'p', 'l', 'y', '_', 't', 'o']
}

/// The member names that the body itself uses; a payload field never has one.
pub open spec fn is_reserved(k: Seq<char>) -> bool {
    k == type_key() || k == msg_id_key() || k == in_reply_to_key()
}

/// The kind of a message and its kind-specific fields, as they stand beside
/// `type` in the body.
#[derive(Debug, PartialEq, Eq)]
pub struct Payload {
    pub kind: String,
    pub fields: Vec<(String, Json)>,
}

#[derive(Debug, PartialEq, Eq)]
pub struct Body {
    pub msg_id: Option<u64>,
    pub in_reply_to: Option<u64>,
    pub payload: Payload,
}

/// An envelope: sender, recipient and body.
#[derive(Debug, PartialEq, Eq)]
pub struct Message {
    pub src: String,
    pub dest: String,
    pub body: Body,
}

pub struct PayloadV {
    pub kind: Seq<char>,
    pub fields: Seq<(Seq<char>, JsonV)>,
}

pub struct BodyV {
    pub msg_id: Option<u64>,
    pub in_reply_to: Option<u64>,
    pub payload: PayloadV,
}

pub struct MessageV {
    pub src: Seq<char>,
    pub dest: Seq<char>,
    pub body: BodyV,
}

impl View for Payload {
    type V = PayloadV;

    open spec fn view(&self) -> PayloadV {
        PayloadV { kind: self.kind@, fields: entries_view(self.fields@) }
    }
}

impl View for Body {
    type V = BodyV;

    open spec fn view(&self) -> BodyV {
        BodyV { msg_id: self.msg_id, in_reply_to: self.in_reply_to, payload: self.payload@ }
    }
}

impl View for Message {
    type V = MessageV;

    open spec fn view(&self) -> MessageV {
        MessageV { src: self.src@, dest: self.dest@, body: self.body@ }
    }
}

/// No payload field takes a name that the body reserves.
pub open spec fn payload_wf(p: PayloadV) -> bool {
    forall|i: int| 0 <= i < p.fields.len() ==> !is_reserved(#[trigger] p.fields[i].0)
}

/// The value of the first member named `key`.
pub open spec fn lookup(es: Seq<(Seq<char>, JsonV)>, key: Seq<char>) -> Option<JsonV>
    decreases es.len(),
{
    if es.len() == 0 {
        None
    } else if es[0].0 == key {
        Some(es[0].1)
    } else {
        lookup(es.drop_first(), key)
    }
}

/// The members that are not reserved, in order.
pub open spec fn payload_entries(es: Seq<(Seq<char>, JsonV)>) -> Seq<(Seq<char>, JsonV)>
    decreases es.len(),
{
    if es.len() == 0 {
        Seq::empty()
    } else if is_reserved(es.last().0) {
        payload_entries(es.drop_last())
    } else {
        payload_entries(es.drop_last()).push(es.last())
    }
}

pub open spec fn text_value(v: Option<JsonV>) -> Option<Seq<char>> {
    match v {
        Some(JsonV::Str(s)) => Some(s),
        _ => None,
    }
}

/// An optional correlation id: `Some(None)` when absent, `None` when present
/// but not an unsigned integer.
pub open spec fn id_value(v: Option<JsonV>) -> Option<Option<u64>> {
    match v {
        None => Some(None),
        Some(JsonV::Num(t)) => if t.len() > 0 && all_digits(t) && digits_value(t) <= u64::MAX {
            Some(Some(digits_value(t) as u64))
        } else {
            None
        },
        _ => None,
    }
}

pub open spec fn body_of(v: Option<JsonV>) -> Option<BodyV> {
    match v {
        Some(JsonV::Obj(es)) => {
            let kind = text_value(lookup(es, type_key()));
            let id = id_value(lookup(es, msg_id_key()));
            let reply = id_value(lookup(es, in_reply_to_key()));
            if kind is Some && id is Some && reply is Some {
                Some(
                    BodyV {
                        msg_id: id->0,
                        in_reply_to: reply->0,
                        payload: PayloadV { kind: kind->0, fields: payload_entries(es) },
                    },
                )
            } else {
                None
            }
        },
        _ => None,
    }
}

/// The envelope that a JSON document holds, if it is one.
pub open spec fn message_of(j: JsonV) -> Option<MessageV> {
    match j {
        JsonV::Obj(es) => {
            let src = text_value(lookup(es, src_key()));
            let dest = text_value(lookup(es, dest_key()));
            let body = body_of(lookup(es, body_key()));
            if src is Some && dest is Some && body is Some {
                Some(MessageV { src: src->0, dest: dest->0, body: body->0 })
            } else {
                None
            }
        },
        _ => None,
    }
}

/// The envelope that a line holds, if it holds one.
pub open spec fn message_of_line(line: Seq<char>) -> Option<MessageV> {
    match json_parse(line) {
        Some(j) => message_of(j),
        None => None,
    }
}

pub open spec fn id_entry(key: Seq<char>, id: Option<u64>) -> Seq<(Seq<char>, JsonV)> {
    match id {
        Some(n) => seq![(key, JsonV::Num(decimal(n as nat)))],
        None => Seq::empty(),
    }
}

/// The body as a JSON object: `type`, then `in_reply_to` and `msg_id` where
/// present, then the payload fields.
pub open spec fn body_json(b: BodyV) -> JsonV {
    JsonV::Obj(
        seq![(type_key(), JsonV::Str(b.payload.kind))] + id_entry(in_reply_to_key(), b.in_reply_to)
            + id_entry(msg_id_key(), b.msg_id) + b.payload.fields,
    )
}

pub open spec fn message_json(m: MessageV) -> JsonV {
    JsonV::Obj(
        seq![
            (src_key(), JsonV::Str(m.src)),
            (dest_key(), JsonV::Str(m.dest)),
            (body_key(), body_json(m.body)),
        ],
    )
}

/// The line that carries an envelope: its JSON text and one newline.
pub open spec fn message_line(m: MessageV) -> Seq<char> {
    json_text(message_json(m)) + seq!['\n']
}

/// The reply to `m` that carries `p`: sender and recipient swapped, and
/// `in_reply_to` taken from the request's `msg_id`.
pub open spec fn reply_to(m: MessageV, p: PayloadV, msg_id: Option<u64>) -> MessageV {
    MessageV {
        src: m.dest,
        dest: m.src,
        body: BodyV { msg_id: msg_id, in_reply_to: m.body.msg_id, payload: p },
    }
}

/// Why a line does not decode.
#[derive(Clone, Debug, PartialEq, Eq)]
pub enum DecodeError {
    MalformedInput,
}

pub(crate) fn key_text(k: &str) -> (r: String)
    ensures
        r@ == k@,
{
    k.to_string()
}

fn src_text() -> (r: String)
    ensures
        r@ == src_key(),
{
    let r = key_text("src");
    proof {
        reveal_strlit("src");
    }
    assert(r@ =~= src_key());
    r
}

fn dest_text() -> (r: String)
    ensures
        r@ == dest_key(),
{
    let r = key_text("dest");
    proof {
        reveal_strlit("dest");
    }
    assert(r@ =~= dest_key());
    r
}

fn body_text() -> (r: String)
    ensures
        r@ == body_key(),
{
    let r = key_text("body");
    proof {
        reveal_strlit("body");
    }
    assert(r@ =~= body_key());
    r
}

fn type_text() -> (r: String)
    ensures
        r@ == type_key(),
{
    let r = key_text("type");
    proof {
        reveal_strlit("type");
    }
    assert(r@ =~= type_key());
    r
}

fn msg_id_text() -> (r: String)
    ensures
        r@ == msg_id_key(),
{
    let r = key_text("msg_id");
    proof {
        reveal_strlit("msg_id");
    }
    assert(r@ =~= msg_id_key());
    r
}

fn in_reply_to_text() -> (r: String)
    ensures
        r@ == in_reply_to_key(),
{
    let r = key_text("in_reply_to");
    proof {
        reveal_strlit("in_reply_to");
    }
    assert(r@ =~= in_reply_to_key());
    r
}

/// The position of the first member named `key`.
pub fn find_entry(es: &Vec<(String, Json)>, key: &String) -> (r: Option<usize>)
    ensures
        match r {
            Some(i) => i < es@.len() && lookup(entries_view(es@), key@) == Some(es@[i as int].1@),
            None => lookup(entries_view(es@), key@) is None,
        },
{
    proof {
        lemma_entries_view(es@);
    }
    let ghost all = entries_view(es@);
    assert(all.skip(0) =~= all);
    let mut i: usize = 0;
    while i < es.len()
        invariant
            i <= es@.len(),
            all == entries_view(es@),
            all.len() == es@.len(),
            forall|k: int| 0 <= k < es@.len() ==> #[trigger] all[k] == (es@[k].0@, es@[k].1@),
            lookup(all, key@) == lookup(all.skip(i as int), key@),
        decreases es@.len() - i,
    {
        assert(all.skip(i as int)[0] == all[i as int]);
        assert(all.skip(i as int).drop_first() =~= all.skip(i as int + 1));
        if es[i].0 == *key {
            assert(lookup(all.skip(i as int), key@) == Some(all[i as int].1));
            return Some(i);
        }
        i = i + 1;
    }
    assert(all.skip(i as int).len() == 0);
    None
}

fn read_text(es: &Vec<(String, Json)>, key: &String) -> (r: Option<String>)
    ensures
        match r {
            Some(s) => text_value(lookup(entries_view(es@), key@)) == Some(s@),
            None => text_value(lookup(entries_view(es@), key@)) is None,
        },
{
    match find_entry(es, key) {
        Some(i) => match &es[i].1 {
            Json::Str(s) => Some(s.clone()),
            _ => None,
        },
        None => None,
    }
}

fn read_id(es: &Vec<(String, Json)>, key: &String) -> (r: Result<Option<u64>, DecodeError>)
    ensures
        match r {
            Ok(id) => id_value(lookup(entries_view(es@), key@)) == Some(id),
            Err(_) => id_value(lookup(entries_view(es@), key@)) is None,
        },
{
    match find_entry(es, key) {
        Some(i) => match &es[i].1 {
            Json::Num(t) => {
                let cs = chars_of(t.as_str());
                match parse_decimal(&cs) {
                    Some(n) => Ok(Some(n)),
                    None => Err(DecodeError::MalformedInput),
                }
            },
            _ => Err(DecodeError::MalformedInput),
        },
        None => Ok(None),
    }
}

/// The members whose names are not reserved, copied.
fn payload_fields(es: &Vec<(String, Json)>) -> (r: Vec<(String, Json)>)
    ensures
        entries_view(r@) == payload_entries(entries_view(es@)),
{
    proof {
        lemma_entries_view(es@);
    }
    let ghost all = entries_view(es@);
    let t = type_text();
    let m = msg_id_text();
    let rt = in_reply_to_text();
    let mut out: Vec<(String, Json)> = Vec::new();
    let mut i: usize = 0;
    while i < es.len()
        invariant
            i <= es@.len(),
            all == entries_view(es@),
            all.len() == es@.len(),
            forall|k: int| 0 <= k < es@.len() ==> #[trigger] all[k] == (es@[k].0@, es@[k].1@),
            t@ == type_key(),
            m@ == msg_id_key(),
            rt@ == in_reply_to_key(),
            entries_view(out@) == payload_entries(all.take(i as int)),
        decreases es@.len() - i,
    {
        let ghost prev = out@;
        assert(all.take(i as int + 1).drop_last() =~= all.take(i as int));
        assert(all.take(i as int + 1).last() == all[i as int]);
        let k = &es[i].0;
        if !(*k == t || *k == m || *k == rt) {
            let x = (k.clone(), es[i].1.copy());
            out.push(x);
            assert(out@.drop_last() =~= prev);
        }
        i = i + 1;
    }
    assert(all.take(es@.len() as int) =~= all);
    out
}

fn decode_body(j: &Json) -> (r: Option<Body>)
    ensures
        match r {
            Some(b) => body_of(Some(j@)) == Some(b@),
            None => body_of(Some(j@)) is None,
        },
{
    match j {
        Json::Obj(es) => {
            let kind = read_text(es, &type_text());
            let id = read_id(es, &msg_id_text());
            let reply = read_id(es, &in_reply_to_text());
            match (kind, id, reply) {
                (Some(kind), Ok(id), Ok(reply)) => {
                    let fields = payload_fields(es);
                    Some(
                        Body {
                            msg_id: id,
                            in_reply_to: reply,
                            payload: Payload { kind, fields },
                        },
                    )
                },
                _ => None,
            }
        },
        _ => None,
    }
}

/// Reads the envelope that a JSON document holds.
pub fn message_from_json(doc: &Json) -> (r: Result<Message, DecodeError>)
    ensures
        match r {
            Ok(m) => message_of(doc@) == Some(m@),
            Err(_) => message_of(doc@) is None,
        },
{
    match doc {
        Json::Obj(es) => {
            let src = read_text(es, &src_text());
            let dest = read_text(es, &dest_text());
            let body = match find_entry(es, &body_text()) {
                Some(i) => decode_body(&es[i].1),
                None => None,
            };
            match (src, dest, body) {
                (Some(src), Some(dest), Some(body)) => Ok(Message { src, dest, body }),
                _ => Err(DecodeError::MalformedInput),
            }
        },
        _ => Err(DecodeError::MalformedInput),
    }
}

/// Reads one line into an envelope.
pub fn decode(line: &str) -> (r: Result<Message, DecodeError>)
    ensures
        match r {
            Ok(m) => message_of_line(line@) == Some(m@),
            Err(_) => message_of_line(line@) is None,
        },
{
    match parse_json(line) {
        Some(doc) => message_from_json(&doc),
        None => Err(DecodeError::MalformedInput),
    }
}

proof fn lemma_entries_push(s: Seq<(String, Json)>, x: (String, Json))
    ensures
        entries_view(s.push(x)) == entries_view(s).push((x.0@, x.1@)),
{
    assert(s.push(x).drop_last() =~= s);
}

proof fn lemma_entries_concat(a: Seq<(String, Json)>, b: Seq<(String, Json)>)
    ensures
        entries_view(a + b) == entries_view(a) + entries_view(b),
    decreases b.len(),
{
    if b.len() == 0 {
        assert(a + b =~= a);
        assert(entries_view(a) + entries_view(b) =~= entries_view(a));
    } else {
        assert((a + b).drop_last() =~= a + b.drop_last());
        lemma_entries_concat(a, b.drop_last());
        assert(entries_view(a) + entries_view(b) =~= (entries_view(a) + entries_view(
            b.drop_last(),
        )).push((b.last().0@, json_view_of(b.last().1))));
    }
}

spec fn json_view_of(j: Json) -> JsonV {
    j@
}

pub(crate) fn number_json(n: u64) -> (r: Json)
    ensures
        r@ == JsonV::Num(decimal(n as nat)),
{
    let mut cs: Vec<char> = Vec::new();
    push_decimal(n, &mut cs);
    assert(cs@ =~= decimal(n as nat));
    Json::Num(string_of(&cs))
}

fn push_id(es: &mut Vec<(String, Json)>, key: String, id: Option<u64>)
    ensures
        entries_view(final(es)@) == entries_view(old(es)@) + id_entry(key@, id),
{
    match id {
        Some(n) => {
            let ghost prev = es@;
            let x = (key, number_json(n));
            es.push(x);
            proof {
                lemma_entries_push(prev, x);
            }
            assert(entries_view(es@) =~= entries_view(prev) + id_entry(x.0@, id));
        },
        None => {
            assert(entries_view(es@) =~= entries_view(es@) + id_entry(key@, id));
        },
    }
}

impl Payload {
    /// A copy of this payload.
    pub fn copy(&self) -> (r: Payload)
        ensures
            r@ == self@,
    {
        Payload { kind: self.kind.clone(), fields: copy_entries(&self.fields) }
    }
}

impl Body {
    /// The body as a JSON object, in the order in which it is written.
    pub fn to_json(&self) -> (r: Json)
        ensures
            r@ == body_json(self@),
    {
        let mut es: Vec<(String, Json)> = Vec::new();
        let x = (type_text(), Json::Str(self.payload.kind.clone()));
        es.push(x);
        proof {
            lemma_entries_push(Seq::empty(), x);
            assert(Seq::<(String, Json)>::empty().push(x) =~= es@);
            assert(entries_view(Seq::<(String, Json)>::empty()) =~= Seq::empty());
        }
        push_id(&mut es, in_reply_to_text(), self.in_reply_to);
        push_id(&mut es, msg_id_text(), self.msg_id);
        let ghost prev = es@;
        let mut fields = copy_entries(&self.payload.fields);
        let ghost fv = fields@;
        es.append(&mut fields);
        proof {
            lemma_entries_concat(prev, fv);
        }
        assert(entries_view(es@) =~= seq![(type_key(), JsonV::Str(self.payload.kind@))] + id_entry(
            in_reply_to_key(),
            self.in_reply_to,
        ) + id_entry(msg_id_key(), self.msg_id) + self.payload@.fields);
        Json::Obj(es)
    }
}

impl Message {
    /// The envelope as a JSON object: `src`, `dest`, then `body`.
    pub fn to_json(&self) -> (r: Json)
        ensures
            r@ == message_json(self@),
    {
        let mut es: Vec<(String, Json)> = Vec::new();
        let a = (src_text(), Json::Str(self.src.clone()));
        let b = (dest_text(), Json::Str(self.dest.clone()));
        let c = (body_text(), self.body.to_json());
        es.push(a);
        es.push(b);
        es.push(c);
        proof {
            let e0 = Seq::<(String, Json)>::empty();
            lemma_entries_push(e0, a);
            lemma_entries_push(e0.push(a), b);
            lemma_entries_push(e0.push(a).push(b), c);
            assert(e0.push(a).push(b).push(c) =~= es@);
            assert(entries_view(e0) =~= Seq::empty());
        }
        assert(entries_view(es@) =~= seq![
            (src_key(), JsonV::Str(self.src@)),
            (dest_key(), JsonV::Str(self.dest@)),
            (body_key(), body_json(self.body@)),
        ]);
        Json::Obj(es)
    }

    /// The payload of this envelope's body, copied.
    pub fn get_payload(&self) -> (r: Payload)
        ensures
            r@ == self@.body.payload,
    {
        self.body.payload.copy()
    }

    /// The reply to this envelope that carries `payload` under the id `msg_id`:
    /// it goes from this envelope's recipient back to its sender, and answers
    /// this envelope's `msg_id`.
    pub fn switch_src_dest(&self, payload: Payload, msg_id: Option<u64>) -> (r: Message)
        ensures
            r@ == reply_to(self@, payload@, msg_id),
    {
        Message {
            src: self.dest.clone(),
            dest: self.src.clone(),
            body: Body { msg_id, in_reply_to: self.body.msg_id, payload },
        }
    }
}

proof fn lemma_id_entry_newline_free(key: Seq<char>, id: Option<u64>)
    ensures
        entries_newline_free(id_entry(key, id)),
{
    reveal_with_fuel(entries_newline_free, 2);
    if let Some(n) = id {
        lemma_decimal_value(n as nat);
        assert(id_entry(key, id).drop_last() =~= Seq::<(Seq<char>, JsonV)>::empty());
        assert(newline_free(decimal(n as nat)));
    }
}

/// The numbers of an envelope's document are written without a newline
/// where those of its payload fields are.
proof fn lemma_message_numbers(m: MessageV)
    requires
        entries_newline_free(m.body.payload.fields),
    ensures
        numbers_newline_free(message_json(m)),
{
    let b = m.body;
    let s1 = seq![(type_key(), JsonV::Str(b.payload.kind))];
    let s2 = id_entry(in_reply_to_key(), b.in_reply_to);
    let s3 = id_entry(msg_id_key(), b.msg_id);
    reveal_with_fuel(entries_newline_free, 4);
    assert(s1.drop_last() =~= Seq::<(Seq<char>, JsonV)>::empty());
    lemma_id_entry_newline_free(in_reply_to_key(), b.in_reply_to);
    lemma_id_entry_newline_free(msg_id_key(), b.msg_id);
    lemma_entries_newline_free_concat(s1, s2);
    lemma_entries_newline_free_concat(s1 + s2, s3);
    lemma_entries_newline_free_concat(s1 + s2 + s3, b.payload.fields);
    assert(numbers_newline_free(body_json(b)));
    let outer = seq![
        (src_key(), JsonV::Str(m.src)),
        (dest_key(), JsonV::Str(m.dest)),
        (body_key(), body_json(m.body)),
    ];
    assert(outer.drop_last().drop_last().drop_last() =~= Seq::<(Seq<char>, JsonV)>::empty());
    assert(outer.drop_last().drop_last() =~= seq![(src_key(), JsonV::Str(m.src))]);
    assert(outer.drop_last() =~= seq![(src_key(), JsonV::Str(m.src)), (dest_key(), JsonV::Str(m.dest))]);
    assert(entries_newline_free(outer.drop_last().drop_last()));
    assert(entries_newline_free(outer.drop_last()));
    assert(entries_newline_free(outer));
    assert(message_json(m) == JsonV::Obj(outer));
}

/// Writes an envelope as one line: its JSON text and one newline. Where no
/// number in the payload is written with a newline, the line holds no other.
pub fn encode(m: &Message) -> (r: String)
    ensures
        r@ == message_line(m@),
        entries_newline_free(m@.body.payload.fields) ==> newline_free(r@.drop_last()),
{
    proof {
        if entries_newline_free(m@.body.payload.fields) {
            lemma_message_numbers(m@);
        }
    }
    let j = m.to_json();
    let mut out: Vec<char> = Vec::new();
    write_json(&j, &mut out);
    let ghost text = out@;
    out.push('\n');
    assert(out@.drop_last() =~= text);
    assert(out@ =~= message_line(m@));
    string_of(&out)
}

proof fn lemma_lookup_concat(a: Seq<(Seq<char>, JsonV)>, b: Seq<(Seq<char>, JsonV)>, k: Seq<char>)
    ensures
        lookup(a + b, k) == (if lookup(a, k) is Some {
            lookup(a, k)
        } else {
            lookup(b, k)
        }),
    decreases a.len(),
{
    if a.len() == 0 {
        assert(a + b =~= b);
    } else {
        assert((a + b).drop_first() =~= a.drop_first() + b);
        lemma_lookup_concat(a.drop_first(), b, k);
    }
}

proof fn lemma_lookup_absent(es: Seq<(Seq<char>, JsonV)>, k: Seq<char>)
    requires
        forall|i: int| 0 <= i < es.len() ==> (#[trigger] es[i]).0 != k,
    ensures
        lookup(es, k) is None,
    decreases es.len(),
{
    if es.len() > 0 {
        assert(forall|i: int|
            0 <= i < es.drop_first().len() ==> #[trigger] es.drop_first()[i] == es[i + 1]);
        lemma_lookup_absent(es.drop_first(), k);
    }
}

proof fn lemma_lookup_single(x: (Seq<char>, JsonV), k: Seq<char>)
    ensures
        lookup(seq![x], k) == (if x.0 == k {
            Some(x.1)
        } else {
            None
        }),
{
    reveal_with_fuel(lookup, 2);
    assert(seq![x].drop_first() =~= Seq::<(Seq<char>, JsonV)>::empty());
}

proof fn lemma_payload_concat(a: Seq<(Seq<char>, JsonV)>, b: Seq<(Seq<char>, JsonV)>)
    ensures
        payload_entries(a + b) == payload_entries(a) + payload_entries(b),
    decreases b.len(),
{
    if b.len() == 0 {
        assert(a + b =~= a);
        assert(payload_entries(a) + payload_entries(b) =~= payload_entries(a));
    } else {
        assert((a + b).drop_last() =~= a + b.drop_last());
        lemma_payload_concat(a, b.drop_last());
        if !is_reserved(b.last().0) {
            assert(payload_entries(a) + payload_entries(b) =~= (payload_entries(a)
                + payload_entries(b.drop_last())).push(b.last()));
        }
    }
}

proof fn lemma_payload_all(es: Seq<(Seq<char>, JsonV)>)
    requires
        forall|i: int| 0 <= i < es.len() ==> !is_reserved(#[trigger] es[i].0),
    ensures
        payload_entries(es) == es,
    decreases es.len(),
{
    if es.len() > 0 {
        lemma_payload_all(es.drop_last());
        assert(es.drop_last().push(es.last()) =~= es);
    }
}

proof fn lemma_payload_none(es: Seq<(Seq<char>, JsonV)>)
    requires
        forall|i: int| 0 <= i < es.len() ==> is_reserved(#[trigger] es[i].0),
    ensures
        payload_entries(es) == Seq::<(Seq<char>, JsonV)>::empty(),
    decreases es.len(),
{
    if es.len() > 0 {
        lemma_payload_none(es.drop_last());
    }
}

proof fn lemma_id_entry(key: Seq<char>, id: Option<u64>, k: Seq<char>)
    ensures
        lookup(id_entry(key, id), k) == (if key == k && id is Some {
            Some(JsonV::Num(decimal(id->0 as nat)))
        } else {
            None
        }),
        key == k ==> id_value(lookup(id_entry(key, id), k)) == Some(id),
{
    match id {
        Some(n) => {
            lemma_lookup_single((key, JsonV::Num(decimal(n as nat))), k);
            lemma_decimal_value(n as nat);
        },
        None => {},
    }
}

/// Decoding the document that an envelope is written as gives the envelope
/// back, for every envelope whose payload fields take no reserved name.
pub proof fn lemma_message_round_trip(m: MessageV)
    requires
        payload_wf(m.body.payload),
    ensures
        message_of(message_json(m)) == Some(m),
{
    let b = m.body;
    let fields = b.payload.fields;
    let s1 = seq![(type_key(), JsonV::Str(b.payload.kind))];
    let s2 = id_entry(in_reply_to_key(), b.in_reply_to);
    let s3 = id_entry(msg_id_key(), b.msg_id);
    let es = s1 + s2 + s3 + fields;
    assert(body_json(b) == JsonV::Obj(es));
    let keys = seq![type_key(), msg_id_key(), in_reply_to_key()];
    assert forall|j: int| 0 <= j < 3 implies lookup(fields, #[trigger] keys[j]) is None by {
        lemma_lookup_absent(fields, keys[j]);
    }
    assert(lookup(fields, keys[0]) is None);
    assert(lookup(fields, keys[1]) is None);
    assert(lookup(fields, keys[2]) is None);
    lemma_lookup_single((type_key(), JsonV::Str(b.payload.kind)), type_key());
    lemma_lookup_single((type_key(), JsonV::Str(b.payload.kind)), msg_id_key());
    lemma_lookup_single((type_key(), JsonV::Str(b.payload.kind)), in_reply_to_key());
    lemma_id_entry(in_reply_to_key(), b.in_reply_to, type_key());
    lemma_id_entry(in_reply_to_key(), b.in_reply_to, msg_id_key());
    lemma_id_entry(in_reply_to_key(), b.in_reply_to, in_reply_to_key());
    lemma_id_entry(msg_id_key(), b.msg_id, type_key());
    lemma_id_entry(msg_id_key(), b.msg_id, msg_id_key());
    lemma_id_entry(msg_id_key(), b.msg_id, in_reply_to_key());
    assert forall|j: int| 0 <= j < 3 implies lookup(es, #[trigger] keys[j]) == lookup(
        s1 + s2 + s3,
        keys[j],
    ) by {
        lemma_lookup_concat(s1 + s2 + s3, fields, keys[j]);
        lemma_lookup_concat(s1 + s2, s3, keys[j]);
        lemma_lookup_concat(s1, s2, keys[j]);
    }
    assert(lookup(es, keys[0]) == lookup(s1 + s2 + s3, keys[0]));
    assert(lookup(es, keys[1]) == lookup(s1 + s2 + s3, keys[1]));
    assert(lookup(es, keys[2]) == lookup(s1 + s2 + s3, keys[2]));
    lemma_lookup_concat(s1 + s2, s3, type_key());
    lemma_lookup_concat(s1, s2, type_key());
    lemma_lookup_concat(s1 + s2, s3, msg_id_key());
    lemma_lookup_concat(s1, s2, msg_id_key());
    lemma_lookup_concat(s1 + s2, s3, in_reply_to_key());
    lemma_lookup_concat(s1, s2, in_reply_to_key());
    let pre = s1 + s2 + s3;
    assert forall|i: int| 0 <= i < pre.len() implies is_reserved(#[trigger] pre[i].0) by {
        if i >= s1.len() + s2.len() {
            assert(pre[i] == s3[i - s1.len() - s2.len()]);
        } else if i >= s1.len() {
            assert(pre[i] == s2[i - s1.len()]);
        }
    }
    lemma_payload_none(pre);
    lemma_payload_all(fields);
    lemma_payload_concat(pre, fields);
    assert(payload_entries(es) =~= fields);
    assert(body_of(Some(body_json(b))) == Some(b));
    let outer = seq![
        (src_key(), JsonV::Str(m.src)),
        (dest_key(), JsonV::Str(m.dest)),
        (body_key(), body_json(m.body)),
    ];
    reveal_with_fuel(lookup, 4);
    assert(outer.drop_first().drop_first().drop_first() =~= Seq::<(Seq<char>, JsonV)>::empty());
    assert(outer.drop_first()[0] == outer[1]);
    assert(outer.drop_first().drop_first()[0] == outer[2]);
    assert(dest_key()[0] != body_key()[0]);
    assert(src_key() != body_key() && src_key() != dest_key());
    assert(lookup(outer, src_key()) == Some(JsonV::Str(m.src)));
    assert(lookup(outer, dest_key()) == Some(JsonV::Str(m.dest)));
    assert(lookup(outer, body_key()) == Some(body_json(m.body)));
}

/// A written line is the text of one JSON object, from its `{` to its `}`,
/// followed by one newline.
pub proof fn lemma_line_shape(m: MessageV)
    ensures
        message_json(m) is Obj,
        message_line(m).last() == '\n',
        message_line(m).drop_last() == json_text(message_json(m)),
        json_text(message_json(m))[0] == '{',
        json_text(message_json(m)).last() == '}',
{
    assert(message_line(m).drop_last() =~= json_text(message_json(m)));
}

} // verus!
