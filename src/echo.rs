use vstd::prelude::*;

use crate::json::{entries_view, Json, JsonV};
use crate::message::{
    decode, encode, find_entry, key_text, lookup, message_line, message_of_line, reply_to, text_value,
    Message, Payload, PayloadV,
};

verus! {

/// The text that an `echo` request carries, if its payload holds one.
pub open spec fn echo_of(p: PayloadV) -> Option<Seq<char>> {
    text_value(lookup(p.fields, "echo"@))
}

/// The payload of the answer to an `echo` request that carries `s`.
pub open spec fn echo_ok_payload(s: Seq<char>) -> PayloadV {
    PayloadV { kind: "echo_ok"@, fields: seq![("echo"@, JsonV::Str(s))] }
}

/// The payload of an `echo` request or of its answer: the text to reflect.
#[derive(Clone, Debug, PartialEq, Eq)]
pub struct Echo {
    pub echo: String,
}

impl Echo {
    /// Reads the `echo` field of a payload.
    pub fn from_payload(p: &Payload) -> (r: Option<Echo>)
        ensures
            match r {
                Some(e) => echo_of(p@) == Some(e.echo@),
                None => echo_of(p@) is None,
            },
    {
        match find_entry(&p.fields, &key_text("echo")) {
            Some(i) => match &p.fields[i].1 {
                Json::Str(s) => Some(Echo { echo: s.clone() }),
                _ => None,
            },
            None => None,
        }
    }

    /// The answer's payload: kind `echo_ok` and the same text.
    pub fn to_reply(self) -> (r: Payload)
        ensures
            r@ == echo_ok_payload(self.echo@),
    {
        let ghost e = self.echo@;
        let mut fields: Vec<(String, Json)> = Vec::new();
        let x = (key_text("echo"), Json::Str(self.echo));
        fields.push(x);
        proof {
            reveal_with_fuel(entries_view, 2);
            assert(fields@.drop_last() =~= Seq::<(String, Json)>::empty());
        }
        assert(entries_view(fields@) =~= seq![("echo"@, JsonV::Str(e))]);
        Payload { kind: key_text("echo_ok"), fields }
    }
}

/// The line that answers an echo request line under the id `msg_id`, or
/// `None` where the line holds no envelope whose payload carries an `echo` text.
pub fn handle_echo(msg: &str, msg_id: Option<u64>) -> (r: Option<String>)
    ensures
        match message_of_line(msg@) {
            Some(m) => match echo_of(m.body.payload) {
                Some(s) => r is Some && r->0@ == message_line(
                    reply_to(m, echo_ok_payload(s), msg_id),
                ),
                None => r is None,
            },
            None => r is None,
        },
{
    match decode(msg) {
        Ok(m) => match Echo::from_payload(&m.body.payload) {
            Some(e) => {
                let reply: Message = m.switch_src_dest(e.to_reply(), msg_id);
                Some(encode(&reply))
            },
            None => None,
        },
        Err(_) => None,
    }
}

} // verus!
