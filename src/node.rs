use vstd::prelude::*;

use crate::echo::{echo_of, echo_ok_payload, Echo};
use crate::json::{
    decimal, entries_newline_free, entries_view, items_view, lemma_decimal_value, lemma_items_view,
    newline_free, Json, JsonV,
};
use crate::message::{
    decode, encode, find_entry, key_text, lookup, message_line, message_of_line, reply_to,
    number_json, text_value, Message, MessageV, Payload, PayloadV,
};

verus! {

/// What a registered request kind does.
#[derive(PartialEq, Eq, Structural, Clone, Copy, Debug)]
pub enum Handler {
    Init,
    Echo,
}

pub open spec fn spec_reply_kind(h: Handler) -> Seq<char> {
    match h {
        Handler::Init => "init_ok"@,
        Handler::Echo => "echo_ok"@,
    }
}

impl Handler {
    /// The kind of the reply that this handler gives.
    pub fn reply_kind(&self) -> (r: String)
        ensures
            r@ == spec_reply_kind(*self),
    {
        match self {
            Handler::Init => key_text("init_ok"),
            Handler::Echo => key_text("echo_ok"),
        }
    }

    /// Whether the handshake must have completed before this handler runs.
    pub fn needs_init(&self) -> (r: bool)
        ensures
            r == (*self != Handler::Init),
    {
        match self {
            Handler::Init => false,
            Handler::Echo => true,
        }
    }
}

/// The handler registered under `kind`: the first entry that names it.
pub open spec fn handler_for(es: Seq<(Seq<char>, Handler)>, kind: Seq<char>) -> Option<Handler>
    decreases es.len(),
{
    if es.len() == 0 {
        None
    } else if es[0].0 == kind {
        Some(es[0].1)
    } else {
        handler_for(es.drop_first(), kind)
    }
}

/// No two entries name the same kind.
pub open spec fn keys_unique(es: Seq<(Seq<char>, Handler)>) -> bool {
    forall|i: int, j: int| 0 <= i < j < es.len() ==> es[i].0 != es[j].0
}

/// The kinds that a node answers from the start.
pub open spec fn builtin_handlers() -> Seq<(Seq<char>, Handler)> {
    seq![("init"@, Handler::Init), ("echo"@, Handler::Echo)]
}

/// A map from request kind to handler; each kind is registered once.
pub struct Registry {
    entries: Vec<(String, Handler)>,
}

impl View for Registry {
    type V = Seq<(Seq<char>, Handler)>;

    closed spec fn view(&self) -> Seq<(Seq<char>, Handler)> {
        self.entries@.map_values(|e: (String, Handler)| (e.0@, e.1))
    }
}

proof fn lemma_handler_for_push(es: Seq<(Seq<char>, Handler)>, x: (Seq<char>, Handler), k: Seq<char>)
    ensures
        handler_for(es.push(x), k) == (if handler_for(es, k) is Some {
            handler_for(es, k)
        } else if x.0 == k {
            Some(x.1)
        } else {
            None
        }),
    decreases es.len(),
{
    if es.len() == 0 {
        reveal_with_fuel(handler_for, 2);
        assert(es.push(x).drop_first() =~= Seq::<(Seq<char>, Handler)>::empty());
    } else {
        assert(es.push(x).drop_first() =~= es.drop_first().push(x));
        lemma_handler_for_push(es.drop_first(), x, k);
    }
}

impl Registry {
    pub closed spec fn wf(&self) -> bool {
        keys_unique(self@)
    }

    /// A registry with no entries.
    pub fn new() -> (r: Registry)
        ensures
            r@ == Seq::<(Seq<char>, Handler)>::empty(),
            r.wf(),
    {
        let r = Registry { entries: Vec::new() };
        assert(r@ =~= Seq::<(Seq<char>, Handler)>::empty());
        r
    }

    /// Registers `h` under `kind`; a kind that is already registered is
    /// refused (`false`) and the registry stays as it was.
    pub fn register(&mut self, kind: String, h: Handler) -> (r: bool)
        requires
            old(self).wf(),
        ensures
            final(self).wf(),
            r == (handler_for(old(self)@, kind@) is None),
            r ==> final(self)@ == old(self)@.push((kind@, h)),
            !r ==> final(self)@ == old(self)@,
    {
        if self.lookup(&kind).is_some() {
            return false;
        }
        let ghost prev = self@;
        proof {
            lemma_handler_absent(prev, kind@);
        }
        self.entries.push((kind, h));
        assert(self@ =~= prev.push((kind@, h)));
        true
    }

    /// The handler registered under `kind`.
    pub fn lookup(&self, kind: &String) -> (r: Option<Handler>)
        ensures
            r == handler_for(self@, kind@),
    {
        let ghost all = self@;
        assert(all.skip(0) =~= all);
        let mut i: usize = 0;
        while i < self.entries.len()
            invariant
                all == self@,
                i <= all.len(),
                handler_for(all, kind@) == handler_for(all.skip(i as int), kind@),
            decreases all.len() - i,
        {
            assert(all.skip(i as int).drop_first() =~= all.skip(i as int + 1));
            assert(all[i as int] == (self.entries@[i as int].0@, self.entries@[i as int].1));
            if self.entries[i].0 == *kind {
                return Some(self.entries[i].1);
            }
            i = i + 1;
        }
        None
    }

    /// The registry of the built-in kinds, `init` and `echo`.
    pub fn builtin() -> (r: Registry)
        ensures
            r@ == builtin_handlers(),
            r.wf(),
    {
        let mut r = Registry::new();
        let a = r.register(key_text("init"), Handler::Init);
        proof {
            reveal_with_fuel(handler_for, 2);
        }
        let b = r.register(key_text("echo"), Handler::Echo);
        proof {
            reveal_strlit("init");
            reveal_strlit("echo");
            assert("init"@[0] != "echo"@[0]);
            reveal_with_fuel(handler_for, 3);
            let s1 = seq![("init"@, Handler::Init)];
            assert(s1.drop_first() =~= Seq::<(Seq<char>, Handler)>::empty());
        }
        assert(r@ =~= builtin_handlers());
        r
    }
}

proof fn lemma_handler_absent(es: Seq<(Seq<char>, Handler)>, k: Seq<char>)
    requires
        handler_for(es, k) is None,
    ensures
        forall|i: int| 0 <= i < es.len() ==> (#[trigger] es[i]).0 != k,
    decreases es.len(),
{
    if es.len() > 0 {
        lemma_handler_absent(es.drop_first(), k);
        assert forall|i: int| 0 <= i < es.len() implies (#[trigger] es[i]).0 != k by {
            if i > 0 {
                assert(es[i] == es.drop_first()[i - 1]);
            }
        }
    }
}


pub open spec fn strings_view(v: Seq<String>) -> Seq<Seq<char>> {
    v.map_values(|s: String| s@)
}

/// The texts of an array whose items are all strings.
pub open spec fn texts_of(items: Seq<JsonV>) -> Option<Seq<Seq<char>>>
    decreases items.len(),
{
    if items.len() == 0 {
        Some(Seq::empty())
    } else {
        match (texts_of(items.drop_last()), items.last()) {
            (Some(t), JsonV::Str(s)) => Some(t.push(s)),
            _ => None,
        }
    }
}

/// The identity that an `init` payload assigns: `node_id` a string, and
/// `node_ids` an array of strings that holds it.
pub open spec fn init_of(p: PayloadV) -> Option<(Seq<char>, Seq<Seq<char>>)> {
    let id = text_value(lookup(p.fields, "node_id"@));
    match lookup(p.fields, "node_ids"@) {
        Some(JsonV::Arr(items)) => {
            let ids = texts_of(items);
            if id is Some && ids is Some && ids->0.contains(id->0) {
                Some((id->0, ids->0))
            } else {
                None
            }
        },
        _ => None,
    }
}

proof fn lemma_texts_prefix(items: Seq<JsonV>, k: int)
    requires
        0 <= k <= items.len(),
        texts_of(items.take(k)) is None,
    ensures
        texts_of(items) is None,
    decreases items.len(),
{
    if k == items.len() {
        assert(items.take(k) =~= items);
    } else {
        assert(items.drop_last().take(k) =~= items.take(k));
        lemma_texts_prefix(items.drop_last(), k);
    }
}

/// The payload of an `init` request: the identity that it assigns.
#[derive(Debug, PartialEq, Eq)]
pub struct Init {
    pub node_id: String,
    pub node_ids: Vec<String>,
}

impl View for Init {
    type V = (Seq<char>, Seq<Seq<char>>);

    open spec fn view(&self) -> (Seq<char>, Seq<Seq<char>>) {
        (self.node_id@, strings_view(self.node_ids@))
    }
}

impl Init {
    /// Reads `node_id` and `node_ids` from a payload.
    pub fn from_payload(p: &Payload) -> (r: Option<Init>)
        ensures
            match r {
                Some(i) => init_of(p@) == Some(i@),
                None => init_of(p@) is None,
            },
    {
        let id = match find_entry(&p.fields, &key_text("node_id")) {
            Some(i) => match &p.fields[i].1 {
                Json::Str(s) => s.clone(),
                _ => {
                    return None;
                },
            },
            None => {
                return None;
            },
        };
        let k = match find_entry(&p.fields, &key_text("node_ids")) {
            Some(k) => k,
            None => {
                return None;
            },
        };
        match &p.fields[k].1 {
            Json::Arr(v) => {
                proof {
                    lemma_items_view(v@);
                }
                let ghost all = items_view(v@);
                let mut ids: Vec<String> = Vec::new();
                let mut found = false;
                let mut i: usize = 0;
                assert(all.take(0) =~= Seq::<JsonV>::empty());
                assert(strings_view(ids@) =~= Seq::<Seq<char>>::empty());
                while i < v.len()
                    invariant
                        all == items_view(v@),
                        lookup(p@.fields, "node_ids"@) == Some(JsonV::Arr(all)),
                        text_value(lookup(p@.fields, "node_id"@)) == Some(id@),
                        all.len() == v@.len(),
                        forall|j: int| 0 <= j < v@.len() ==> #[trigger] all[j] == v@[j]@,
                        i <= v@.len(),
                        texts_of(all.take(i as int)) == Some(strings_view(ids@)),
                        found == strings_view(ids@).contains(id@),
                    decreases v@.len() - i,
                {
                    assert(all.take(i as int + 1).drop_last() =~= all.take(i as int));
                    assert(all.take(i as int + 1).last() == v@[i as int]@);
                    match &v[i] {
                        Json::Str(s) => {
                            let ghost before = strings_view(ids@);
                            if *s == id {
                                found = true;
                            }
                            ids.push(s.clone());
                            assert(strings_view(ids@) =~= before.push(s@));
                            proof {
                                if before.contains(id@) {
                                    let w = choose|w: int| 0 <= w < before.len() && before[w] == id@;
                                    assert(strings_view(ids@)[w] == id@);
                                }
                                if s@ == id@ {
                                    assert(strings_view(ids@)[before.len() as int] == id@);
                                }
                                if strings_view(ids@).contains(id@) {
                                    let w = choose|w: int|
                                        0 <= w < strings_view(ids@).len() && strings_view(ids@)[w]
                                            == id@;
                                    if w < before.len() {
                                        assert(before[w] == id@);
                                    }
                                }
                            }
                        },
                        _ => {
                            proof {
                                assert(!(all.take(i as int + 1).last() is Str));
                                assert(texts_of(all.take(i as int + 1)) is None);
                                lemma_texts_prefix(all, i as int + 1);
                            }
                            return None;
                        },
                    }
                    i = i + 1;
                }
                assert(all.take(v@.len() as int) =~= all);
                if found {
                    Some(Init { node_id: id, node_ids: ids })
                } else {
                    None
                }
            },
            _ => None,
        }
    }
}

/// The payload of the answer to `init`.
pub open spec fn init_ok_payload() -> PayloadV {
    PayloadV { kind: "init_ok"@, fields: Seq::empty() }
}

/// The answer to a successful `init`: a payload of kind `init_ok` and nothing else.
#[derive(Clone, Debug, PartialEq, Eq)]
pub struct InitOk {}

impl InitOk {
    pub fn to_reply(&self) -> (r: Payload)
        ensures
            r@ == init_ok_payload(),
    {
        let r = Payload { kind: key_text("init_ok"), fields: Vec::new() };
        assert(r@.fields =~= Seq::<(Seq<char>, JsonV)>::empty());
        r
    }
}


/// Why a request is refused rather than answered.
#[derive(PartialEq, Eq, Structural, Clone, Copy, Debug)]
pub enum Refusal {
    NotSupported,
    NotYetInitialized,
    BadRequest,
    AlreadyInitialized,
}

pub open spec fn refusal_code(r: Refusal) -> u64 {
    match r {
        Refusal::NotSupported => 10,
        Refusal::NotYetInitialized => 11,
        Refusal::BadRequest => 12,
        Refusal::AlreadyInitialized => 22,
    }
}

impl Refusal {
    /// The code that an `error` reply carries for this refusal.
    pub fn code(&self) -> (r: u64)
        ensures
            r == refusal_code(*self),
    {
        match self {
            Refusal::NotSupported => 10,
            Refusal::NotYetInitialized => 11,
            Refusal::BadRequest => 12,
            Refusal::AlreadyInitialized => 22,
        }
    }
}

/// The payload of an `error` reply: its code and a reason.
pub open spec fn error_payload(r: Refusal, text: Seq<char>) -> PayloadV {
    PayloadV {
        kind: "error"@,
        fields: seq![
            ("code"@, JsonV::Num(decimal(refusal_code(r) as nat))),
            ("text"@, JsonV::Str(text)),
        ],
    }
}

/// What a node does with a request payload: the reply payload of the
/// handler, or a refusal with its reason.
pub open spec fn outcome(
    registry: Seq<(Seq<char>, Handler)>,
    identity: Option<(Seq<char>, Seq<Seq<char>>)>,
    p: PayloadV,
) -> Result<PayloadV, (Refusal, Seq<char>)> {
    match handler_for(registry, p.kind) {
        None => if identity is Some {
            Err((Refusal::NotSupported, "unsupported message type"@))
        } else {
            Err((Refusal::NotYetInitialized, "node is not initialised"@))
        },
        Some(Handler::Init) => if identity is Some {
            Err((Refusal::AlreadyInitialized, "node is already initialised"@))
        } else if init_of(p) is None {
            Err((Refusal::BadRequest, "init needs node_id and node_ids holding it"@))
        } else {
            Ok(init_ok_payload())
        },
        Some(Handler::Echo) => if identity is None {
            Err((Refusal::NotYetInitialized, "node is not initialised"@))
        } else if echo_of(p) is None {
            Err((Refusal::BadRequest, "echo needs an echo string"@))
        } else {
            Ok(echo_ok_payload(echo_of(p)->0))
        },
    }
}

/// The identity that a request installs, if it is an `init` that succeeds.
pub open spec fn installs(
    registry: Seq<(Seq<char>, Handler)>,
    identity: Option<(Seq<char>, Seq<Seq<char>>)>,
    p: PayloadV,
) -> Option<(Seq<char>, Seq<Seq<char>>)> {
    if outcome(registry, identity, p) is Ok && handler_for(registry, p.kind) == Some(Handler::Init) {
        init_of(p)
    } else {
        None
    }
}

/// The state of a node: its handlers, its identity once the handshake is
/// done, and the id that its next reply takes.
pub struct NodeV {
    pub registry: Seq<(Seq<char>, Handler)>,
    pub identity: Option<(Seq<char>, Seq<Seq<char>>)>,
    pub next_id: u64,
}

/// The id that the next reply carries; a spent counter gives none.
pub open spec fn outbound_id(next_id: u64) -> Option<u64> {
    if next_id < u64::MAX {
        Some(next_id)
    } else {
        None
    }
}

pub open spec fn advance(next_id: u64) -> u64 {
    if next_id < u64::MAX {
        (next_id + 1) as u64
    } else {
        next_id
    }
}

pub open spec fn reply_payload(o: Result<PayloadV, (Refusal, Seq<char>)>) -> PayloadV {
    match o {
        Ok(p) => p,
        Err((r, t)) => error_payload(r, t),
    }
}

/// One request turn: the node's next state and its reply.
pub open spec fn turn(n: NodeV, m: MessageV) -> (NodeV, MessageV) {
    let o = outcome(n.registry, n.identity, m.body.payload);
    let installed = installs(n.registry, n.identity, m.body.payload);
    (
        NodeV {
            registry: n.registry,
            identity: if installed is Some {
                installed
            } else {
                n.identity
            },
            next_id: advance(n.next_id),
        },
        reply_to(m, reply_payload(o), outbound_id(n.next_id)),
    )
}

/// The state of a node before its first request.
pub open spec fn fresh_node() -> NodeV {
    NodeV { registry: builtin_handlers(), identity: None, next_id: 1 }
}

fn error_reply(r: Refusal, text: &str) -> (p: Payload)
    ensures
        p@ == error_payload(r, text@),
{
    let mut fields: Vec<(String, Json)> = Vec::new();
    fields.push((key_text("code"), number_json(r.code())));
    fields.push((key_text("text"), Json::Str(key_text(text))));
    proof {
        reveal_with_fuel(entries_view, 3);
        assert(fields@.drop_last().drop_last() =~= Seq::<(String, Json)>::empty());
    }
    let p = Payload { kind: key_text("error"), fields };
    assert(p@.fields =~= error_payload(r, text@).fields);
    p
}

/// No reply payload holds a number written with a newline.
proof fn lemma_reply_newline_free(n: NodeV, m: MessageV)
    ensures
        entries_newline_free(turn(n, m).1.body.payload.fields),
{
    reveal_with_fuel(entries_newline_free, 3);
    let p = turn(n, m).1.body.payload;
    match outcome(n.registry, n.identity, m.body.payload) {
        Ok(q) => {
            assert(p.fields.len() <= 1);
            if p.fields.len() == 1 {
                assert(p.fields.drop_last() =~= Seq::<(Seq<char>, JsonV)>::empty());
            }
        },
        Err((r, t)) => {
            lemma_decimal_value(refusal_code(r) as nat);
            assert(p.fields.drop_last().drop_last() =~= Seq::<(Seq<char>, JsonV)>::empty());
            assert(newline_free(decimal(refusal_code(r) as nat)));
        },
    }
}

/// A node of the cluster: it answers one request at a time.
pub struct Node {
    registry: Registry,
    identity: Option<Init>,
    next_id: u64,
}

impl View for Node {
    type V = NodeV;

    closed spec fn view(&self) -> NodeV {
        NodeV {
            registry: self.registry@,
            identity: match self.identity {
                Some(i) => Some(i@),
                None => None,
            },
            next_id: self.next_id,
        }
    }
}

impl Node {
    pub closed spec fn wf(&self) -> bool {
        self.registry.wf()
    }

    /// A node that has not been initialised, with the built-in handlers and
    /// its first reply id 1.
    pub fn new() -> (r: Node)
        ensures
            r@ == fresh_node(),
            r.wf(),
    {
        Node { registry: Registry::builtin(), identity: None, next_id: 1 }
    }

    /// Registers `h` under `kind`, as `Registry::register` does.
    pub fn register(&mut self, kind: String, h: Handler) -> (r: bool)
        requires
            old(self).wf(),
        ensures
            final(self).wf(),
            r == (handler_for(old(self)@.registry, kind@) is None),
            final(self)@.registry == (if r {
                old(self)@.registry.push((kind@, h))
            } else {
                old(self)@.registry
            }),
            final(self)@.identity == old(self)@.identity,
            final(self)@.next_id == old(self)@.next_id,
    {
        self.registry.register(kind, h)
    }

    /// Whether the handshake has completed.
    pub fn is_ready(&self) -> (r: bool)
        ensures
            r == (self@.identity is Some),
    {
        self.identity.is_some()
    }

    /// This node's assigned identifier, once the handshake is done.
    pub fn node_id(&self) -> (r: Option<String>)
        ensures
            match (r, self@.identity) {
                (Some(s), Some((id, _))) => s@ == id,
                (None, None) => true,
                _ => false,
            },
    {
        match &self.identity {
            Some(i) => Some(i.node_id.clone()),
            None => None,
        }
    }

    /// The identifiers of all the nodes of the cluster, once the handshake is done.
    pub fn node_ids(&self) -> (r: Option<Vec<String>>)
        ensures
            match (r, self@.identity) {
                (Some(v), Some((_, ids))) => strings_view(v@) == ids,
                (None, None) => true,
                _ => false,
            },
    {
        match &self.identity {
            Some(i) => {
                let mut out: Vec<String> = Vec::new();
                let mut k: usize = 0;
                while k < i.node_ids.len()
                    invariant
                        k <= i.node_ids@.len(),
                        strings_view(out@) =~= strings_view(i.node_ids@.take(k as int)),
                    decreases i.node_ids@.len() - k,
                {
                    let ghost prev = out@;
                    out.push(i.node_ids[k].clone());
                    assert(out@ =~= prev.push(i.node_ids@[k as int]));
                    assert(strings_view(out@) =~= strings_view(prev).push(i.node_ids@[k as int]@));
                    assert(i.node_ids@.take(k as int + 1) =~= i.node_ids@.take(k as int).push(
                        i.node_ids@[k as int],
                    ));
                    k = k + 1;
                }
                assert(i.node_ids@.take(i.node_ids@.len() as int) =~= i.node_ids@);
                assert(strings_view(out@) =~= strings_view(i.node_ids@));
                Some(out)
            },
            None => None,
        }
    }

    fn respond(&self, p: &Payload) -> (r: (Result<Payload, (Refusal, String)>, Option<Init>))
        ensures
            match r.0 {
                Ok(q) => outcome(self@.registry, self@.identity, p@) == Ok::<
                    PayloadV,
                    (Refusal, Seq<char>),
                >(q@),
                Err((k, t)) => outcome(self@.registry, self@.identity, p@) == Err::<
                    PayloadV,
                    (Refusal, Seq<char>),
                >((k, t@)),
            },
            match r.1 {
                Some(i) => installs(self@.registry, self@.identity, p@) == Some(i@),
                None => installs(self@.registry, self@.identity, p@) is None,
            },
    {
        let ready = self.identity.is_some();
        match self.registry.lookup(&p.kind) {
            None => {
                if ready {
                    (Err((Refusal::NotSupported, key_text("unsupported message type"))), None)
                } else {
                    (Err((Refusal::NotYetInitialized, key_text("node is not initialised"))), None)
                }
            },
            Some(Handler::Init) => {
                if ready {
                    (
                        Err((Refusal::AlreadyInitialized, key_text("node is already initialised"))),
                        None,
                    )
                } else {
                    match Init::from_payload(p) {
                        Some(i) => (Ok(InitOk {}.to_reply()), Some(i)),
                        None => (
                            Err(
                                (
                                    Refusal::BadRequest,
                                    key_text("init needs node_id and node_ids holding it"),
                                ),
                            ),
                            None,
                        ),
                    }
                }
            },
            Some(Handler::Echo) => {
                if !ready {
                    (Err((Refusal::NotYetInitialized, key_text("node is not initialised"))), None)
                } else {
                    match Echo::from_payload(p) {
                        Some(e) => (Ok(e.to_reply()), None),
                        None => (
                            Err((Refusal::BadRequest, key_text("echo needs an echo string"))),
                            None,
                        ),
                    }
                }
            },
        }
    }

    /// Answers one request: picks the handler by the request's kind, applies
    /// the handshake rules, and builds the reply from the recipient back to
    /// the sender under the next outbound id.
    pub fn handle(&mut self, req: &Message) -> (reply: Message)
        requires
            old(self).wf(),
        ensures
            final(self).wf(),
            (final(self)@, reply@) == turn(old(self)@, req@),
    {
        let (o, installed) = self.respond(&req.body.payload);
        let payload = match o {
            Ok(q) => q,
            Err((k, t)) => error_reply(k, t.as_str()),
        };
        let id = if self.next_id < u64::MAX {
            Some(self.next_id)
        } else {
            None
        };
        if self.next_id < u64::MAX {
            self.next_id = self.next_id + 1;
        }
        match installed {
            Some(i) => {
                self.identity = Some(i);
            },
            None => {},
        }
        req.switch_src_dest(payload, id)
    }

    /// One turn of the loop on an input line: the reply line, or `None`
    /// (and no change) where the line holds no envelope.
    pub fn step(&mut self, line: &str) -> (r: Option<String>)
        requires
            old(self).wf(),
        ensures
            final(self).wf(),
            match message_of_line(line@) {
                Some(m) => final(self)@ == turn(old(self)@, m).0 && r is Some && r->0@
                    == message_line(turn(old(self)@, m).1) && newline_free(r->0@.drop_last()),
                None => final(self)@ == old(self)@ && r is None,
            },
    {
        match decode(line) {
            Ok(m) => {
                proof {
                    lemma_reply_newline_free(old(self)@, m@);
                }
                let reply = self.handle(&m);
                Some(encode(&reply))
            },
            Err(_) => None,
        }
    }
}


/// A session: the requests in order, each answered by the state that the
/// ones before it left; the final state and the replies in order.
pub open spec fn session(n: NodeV, ms: Seq<MessageV>) -> (NodeV, Seq<MessageV>)
    decreases ms.len(),
{
    if ms.len() == 0 {
        (n, Seq::empty())
    } else {
        let (mid, rs) = session(n, ms.drop_last());
        let (last, r) = turn(mid, ms.last());
        (last, rs.push(r))
    }
}

/// Every reply goes from the request's recipient back to its sender.
pub proof fn lemma_reply_swaps_ends(n: NodeV, m: MessageV)
    ensures
        turn(n, m).1.src == m.dest,
        turn(n, m).1.dest == m.src,
{
}

/// A reply's `in_reply_to` is the request's `msg_id`, and is absent where
/// that is absent.
pub proof fn lemma_reply_correlates(n: NodeV, m: MessageV)
    ensures
        turn(n, m).1.body.in_reply_to == m.body.msg_id,
{
}

/// The ids that the replies of a session carry strictly increase, and each
/// lies between the counter at the start and the counter at the end.
pub proof fn lemma_session_ids_increase(n: NodeV, ms: Seq<MessageV>)
    ensures
        session(n, ms).1.len() == ms.len(),
        n.next_id <= session(n, ms).0.next_id,
        forall|i: int|
            0 <= i < ms.len() && (#[trigger] session(n, ms).1[i]).body.msg_id is Some ==> n.next_id
                <= session(n, ms).1[i].body.msg_id->0 < session(n, ms).0.next_id,
        forall|i: int, j: int|
            0 <= i < j < ms.len() && (#[trigger] session(n, ms).1[i]).body.msg_id is Some && (
            #[trigger] session(n, ms).1[j]).body.msg_id is Some ==> session(n, ms).1[i].body.msg_id->0
                < session(n, ms).1[j].body.msg_id->0,
    decreases ms.len(),
{
    if ms.len() > 0 {
        lemma_session_ids_increase(n, ms.drop_last());
        let (mid, rs) = session(n, ms.drop_last());
        let (last, r) = turn(mid, ms.last());
        let all = rs.push(r);
        assert(session(n, ms).1 == all);
        assert forall|i: int|
            0 <= i < ms.len() && (#[trigger] all[i]).body.msg_id is Some implies n.next_id
                <= all[i].body.msg_id->0 < last.next_id by {
            if i < rs.len() {
                assert(all[i] == rs[i]);
            }
        }
        assert forall|i: int, j: int|
            0 <= i < j < ms.len() && (#[trigger] all[i]).body.msg_id is Some && (
            #[trigger] all[j]).body.msg_id is Some implies all[i].body.msg_id->0
                < all[j].body.msg_id->0 by {
            assert(all[i] == rs[i]);
            if j < rs.len() {
                assert(all[j] == rs[j]);
            }
        }
    }
}

/// An `echo` request on an initialised node is answered with kind `echo_ok`
/// and exactly the text that it carried.
pub proof fn lemma_echo_fidelity(n: NodeV, m: MessageV, s: Seq<char>)
    requires
        n.identity is Some,
        handler_for(n.registry, m.body.payload.kind) == Some(Handler::Echo),
        echo_of(m.body.payload) == Some(s),
    ensures
        turn(n, m).1.body.payload.kind == "echo_ok"@,
        echo_of(turn(n, m).1.body.payload) == Some(s),
{
    reveal_with_fuel(lookup, 2);
    assert(echo_ok_payload(s).fields.drop_first() =~= Seq::<(Seq<char>, JsonV)>::empty());
}

/// The code that an `error` payload carries.
pub open spec fn error_code(p: PayloadV) -> Option<JsonV> {
    if p.kind == "error"@ {
        lookup(p.fields, "code"@)
    } else {
        None
    }
}

/// With the built-in handlers: once initialised, every `init` is refused
/// with code 22; before that, every request of another kind is refused with
/// code 11.
pub proof fn lemma_handshake_exclusive(n: NodeV, m: MessageV)
    requires
        n.registry == builtin_handlers(),
    ensures
        n.identity is Some && m.body.payload.kind == "init"@ ==> error_code(
            turn(n, m).1.body.payload,
        ) == Some(JsonV::Num(decimal(22))),
        n.identity is None && m.body.payload.kind != "init"@ ==> error_code(
            turn(n, m).1.body.payload,
        ) == Some(JsonV::Num(decimal(11))),
{
    reveal_with_fuel(handler_for, 3);
    reveal_with_fuel(lookup, 2);
    let b = builtin_handlers();
    assert(b.drop_first() =~= seq![("echo"@, Handler::Echo)]);
    assert(b.drop_first().drop_first() =~= Seq::<(Seq<char>, Handler)>::empty());
    let k = m.body.payload.kind;
    assert(handler_for(b, k) is None || handler_for(b, k) == Some(Handler::Init) || handler_for(b, k)
        == Some(Handler::Echo));
    assert(handler_for(b, "init"@) == Some(Handler::Init));
    assert(k != "init"@ ==> handler_for(b, k) != Some(Handler::Init));
}

/// Once a node holds an identity, no request takes it away or changes it.
pub proof fn lemma_identity_kept(n: NodeV, m: MessageV)
    requires
        n.identity is Some,
    ensures
        turn(n, m).0.identity == n.identity,
{
}

} // verus!
