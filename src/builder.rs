//! The network builder: incremental declarations addressed by index.
use vstd::prelude::*;

use crate::decl::{
    Access, AttributeDecl, BusDecl, CommandDecl, EnumDecl, EnumEntryDecl, FieldDecl,
    MessageDecl, MessageFormat, MessageIdTemplate, NodeDecl, ObjectEntryDecl, RxStreamDecl,
    SignalDecl, StructDecl, TxStreamDecl, TypeDecl,
};
use crate::types::Primitive;

verus! {

/// Everything declared so far.
#[derive(Debug)]
pub struct NetworkData {
    pub baudrate: Option<u32>,
    pub messages: Vec<MessageDecl>,
    pub types: Vec<TypeDecl>,
    pub nodes: Vec<NodeDecl>,
    pub get_req_message: usize,
    pub get_resp_message: usize,
    pub set_req_message: usize,
    pub set_resp_message: usize,
    pub buses: Vec<BusDecl>,
}

/// Declares a network, one entity at a time; `build` compiles it.
#[derive(Debug)]
pub struct NetworkBuilder(pub NetworkData);

impl NodeDecl {
    /// Every index the node holds names an entity that exists.
    pub open spec fn wf(&self, n_messages: nat, n_buses: nat, nodes: Seq<NodeDecl>) -> bool {
        &&& forall|k: int| 0 <= k < self.rx_messages@.len() ==> #[trigger] self.rx_messages@[k] < n_messages
        &&& forall|k: int| 0 <= k < self.tx_messages@.len() ==> #[trigger] self.tx_messages@[k] < n_messages
        &&& forall|k: int|
            0 <= k < self.commands@.len() ==> (#[trigger] self.commands@[k]).request < n_messages
                && self.commands@[k].response < n_messages
        &&& forall|k: int|
            0 <= k < self.extern_commands@.len() ==> #[trigger] self.extern_commands@[k] < n_messages
        &&& forall|k: int|
            0 <= k < self.tx_streams@.len() ==> (#[trigger] self.tx_streams@[k]).message < n_messages
                && forall|x: int|
                0 <= x < self.tx_streams@[k].entries@.len() ==> #[trigger] self.tx_streams@[k].entries@[x]
                    < self.object_entries@.len()
        &&& forall|k: int|
            0 <= k < self.rx_streams@.len() ==> (#[trigger] self.rx_streams@[k]).publisher < nodes.len()
                && self.rx_streams@[k].stream < nodes[self.rx_streams@[k].publisher as int].tx_streams@.len()
                && forall|x: int|
                0 <= x < self.rx_streams@[k].mapping@.len() ==> (#[trigger] self.rx_streams@[k].mapping@[x]).1
                    < self.object_entries@.len()
        &&& forall|k: int| 0 <= k < self.buses@.len() ==> #[trigger] self.buses@[k] < n_buses
    }
}

impl NodeDecl {
    /// A node that declares nothing yet.
    pub open spec fn is_empty(&self) -> bool {
        &&& self.description is None
        &&& self.rx_messages@.len() == 0
        &&& self.tx_messages@.len() == 0
        &&& self.commands@.len() == 0
        &&& self.extern_commands@.len() == 0
        &&& self.object_entries@.len() == 0
        &&& self.tx_streams@.len() == 0
        &&& self.rx_streams@.len() == 0
        &&& self.buses@.len() == 0
    }
}

impl NetworkData {
    /// The protocol messages sit at the same indices.
    pub open spec fn same_protocol(&self, o: NetworkData) -> bool {
        &&& self.get_req_message == o.get_req_message
        &&& self.get_resp_message == o.get_resp_message
        &&& self.set_req_message == o.set_req_message
        &&& self.set_resp_message == o.set_resp_message
    }

    /// Every cross-reference between declarations is in range.
    pub open spec fn wf(&self) -> bool {
        &&& self.get_req_message < self.messages@.len()
        &&& self.get_resp_message < self.messages@.len()
        &&& self.set_req_message < self.messages@.len()
        &&& self.set_resp_message < self.messages@.len()
        &&& forall|m: int|
            0 <= m < self.messages@.len() && (#[trigger] self.messages@[m]).bus is Some ==> self.messages@[m].bus->0
                < self.buses@.len()
        &&& forall|i: int|
            0 <= i < self.nodes@.len() ==> (#[trigger] self.nodes@[i]).wf(
                self.messages@.len(),
                self.buses@.len(),
                self.nodes@,
            )
    }
}

fn find_node(nodes: &Vec<NodeDecl>, name: &Vec<char>) -> (r: Option<usize>)
    ensures
        r matches Some(i) ==> i < nodes@.len() && nodes@[i as int].name@ == name@ && forall|j: int|
            0 <= j < i ==> #[trigger] nodes@[j].name@ != name@,
        r is None ==> forall|j: int| 0 <= j < nodes@.len() ==> #[trigger] nodes@[j].name@ != name@,
{
    let mut i: usize = 0;
    while i < nodes.len()
        invariant
            i <= nodes@.len(),
            forall|j: int| 0 <= j < i ==> #[trigger] nodes@[j].name@ != name@,
        decreases nodes@.len() - i,
    {
        let existing = crate::text::chars_of(nodes[i].name.as_str());
        if crate::text::same_chars(&existing, name) {
            return Some(i);
        }
        i += 1;
    }
    None
}

/// A status enum of the protocol: `Success = 0`, `Error = 1`.
pub open spec fn status_enum_is(t: TypeDecl, name: Seq<char>) -> bool {
    &&& t matches TypeDecl::Enum(e)
    &&& t->Enum_0.name@ == name
    &&& t->Enum_0.entries@.len() == 2
    &&& t->Enum_0.entries@[0].name@ == "Success"@ && t->Enum_0.entries@[0].value == Some(0u64)
    &&& t->Enum_0.entries@[1].name@ == "Error"@ && t->Enum_0.entries@[1].value == Some(1u64)
}

/// A struct declaration with the given (name, descriptor) attributes.
pub open spec fn struct_is(t: TypeDecl, name: Seq<char>, attrs: Seq<(Seq<char>, Seq<char>)>) -> bool {
    &&& t matches TypeDecl::Struct(s)
    &&& t->Struct_0.name@ == name
    &&& t->Struct_0.attributes@.len() == attrs.len()
    &&& forall|k: int|
        0 <= k < attrs.len() ==> (#[trigger] t->Struct_0.attributes@[k]).name@ == attrs[k].0
            && t->Struct_0.attributes@[k].ty@ == attrs[k].1
}

/// A message with a typed format of the given (descriptor, name) fields.
pub open spec fn typed_message_is(m: MessageDecl, name: Seq<char>, fields: Seq<(Seq<char>, Seq<char>)>) -> bool {
    &&& m.name@ == name
    &&& m.bus is None
    &&& m.format matches MessageFormat::Types(f)
    &&& m.format->Types_0@.len() == fields.len()
    &&& forall|k: int|
        0 <= k < fields.len() ==> (#[trigger] m.format->Types_0@[k]).ty@ == fields[k].0
            && m.format->Types_0@[k].name@ == fields[k].1
}

/// The declarations of the built-in object get/set protocol.
pub open spec fn is_prelude(d: NetworkData) -> bool {
    &&& d.baudrate is None
    &&& d.buses@.len() == 0
    &&& d.nodes@.len() == 0
    &&& d.get_req_message == 0 && d.get_resp_message == 1 && d.set_req_message == 2
        && d.set_resp_message == 3
    &&& d.messages@.len() == 4
    &&& typed_message_is(d.messages@[0], "get_req"@, seq![("get_req_header"@, "header"@)])
    &&& typed_message_is(
        d.messages@[1],
        "get_resp"@,
        seq![("get_resp_header"@, "header"@), ("u32"@, "data"@)],
    )
    &&& typed_message_is(
        d.messages@[2],
        "set_req"@,
        seq![("set_req_header"@, "header"@), ("u32"@, "data"@)],
    )
    &&& typed_message_is(d.messages@[3], "set_resp"@, seq![("set_resp_header"@, "header"@)])
    &&& d.types@.len() == 7
    &&& status_enum_is(d.types@[0], "get_resp_erno"@)
    &&& status_enum_is(d.types@[1], "set_resp_erno"@)
    &&& struct_is(
        d.types@[2],
        "get_req_header"@,
        seq![("od_index"@, "u13"@), ("client_id"@, "u8"@), ("server_id"@, "u8"@)],
    )
    &&& struct_is(
        d.types@[3],
        "get_resp_header"@,
        seq![
            ("sof"@, "u1"@),
            ("eof"@, "u1"@),
            ("toggle"@, "u1"@),
            ("od_index"@, "u13"@),
            ("client_id"@, "u8"@),
            ("server_id"@, "u8"@),
        ],
    )
    &&& struct_is(
        d.types@[4],
        "set_req_header"@,
        seq![
            ("sof"@, "u1"@),
            ("eof"@, "u1"@),
            ("toggle"@, "u1"@),
            ("od_index"@, "u13"@),
            ("client_id"@, "u8"@),
            ("server_id"@, "u8"@),
        ],
    )
    &&& struct_is(
        d.types@[5],
        "set_resp_header"@,
        seq![("client_id"@, "u8"@), ("server_id"@, "u8"@), ("erno"@, "set_resp_erno"@)],
    )
    &&& status_enum_is(d.types@[6], "command_resp_erno"@)
}

/// A status enum of the protocol.
fn status_enum(name: &str) -> (r: TypeDecl)
    ensures
        status_enum_is(r, name@),
{
    let mut entries: Vec<EnumEntryDecl> = Vec::new();
    entries.push(EnumEntryDecl { name: String::from_str("Success"), value: Some(0) });
    entries.push(EnumEntryDecl { name: String::from_str("Error"), value: Some(1) });
    TypeDecl::Enum(EnumDecl { name: String::from_str(name), description: None, entries })
}

fn attribute(name: &str, ty: &str) -> (r: AttributeDecl)
    ensures
        r.name@ == name@,
        r.ty@ == ty@,
{
    AttributeDecl { name: String::from_str(name), ty: String::from_str(ty) }
}

fn field(ty: &str, name: &str) -> (r: FieldDecl)
    ensures
        r.name@ == name@,
        r.ty@ == ty@,
{
    FieldDecl { ty: String::from_str(ty), name: String::from_str(name) }
}

/// A protocol header with the given attributes.
fn header(name: &str, attributes: Vec<AttributeDecl>) -> (r: TypeDecl)
    ensures
        r matches TypeDecl::Struct(s) && s.name@ == name@ && s.attributes@ == attributes@,
{
    TypeDecl::Struct(StructDecl { name: String::from_str(name), description: None, attributes })
}

/// A protocol message with the given typed fields.
fn protocol_message(name: &str, fields: Vec<FieldDecl>) -> (r: MessageDecl)
    ensures
        r.name@ == name@,
        r.bus is None,
        r.format matches MessageFormat::Types(f) && f@ == fields@,
{
    MessageDecl {
        name: String::from_str(name),
        description: None,
        id: MessageIdTemplate::AnyAny,
        bus: None,
        format: MessageFormat::Types(fields),
        expected_interval_ms: None,
    }
}

impl NetworkBuilder {
    pub open spec fn wf(&self) -> bool {
        self.0.wf()
    }

    /// A builder holding only the built-in protocol: the status enums, and the
    /// object get/set request and response messages with their headers.
    pub fn new() -> (r: NetworkBuilder)
        ensures
            r.wf(),
            is_prelude(r.0),
    {
        let mut f: Vec<FieldDecl> = Vec::new();
        f.push(field("get_req_header", "header"));
        let get_req = protocol_message("get_req", f);
        let mut f: Vec<FieldDecl> = Vec::new();
        f.push(field("get_resp_header", "header"));
        f.push(field("u32", "data"));
        let get_resp = protocol_message("get_resp", f);
        let mut f: Vec<FieldDecl> = Vec::new();
        f.push(field("set_req_header", "header"));
        f.push(field("u32", "data"));
        let set_req = protocol_message("set_req", f);
        let mut f: Vec<FieldDecl> = Vec::new();
        f.push(field("set_resp_header", "header"));
        let set_resp = protocol_message("set_resp", f);
        let mut messages: Vec<MessageDecl> = Vec::new();
        messages.push(get_req);
        messages.push(get_resp);
        messages.push(set_req);
        messages.push(set_resp);

        let mut a: Vec<AttributeDecl> = Vec::new();
        a.push(attribute("od_index", "u13"));
        a.push(attribute("client_id", "u8"));
        a.push(attribute("server_id", "u8"));
        let get_req_header = header("get_req_header", a);
        let mut a: Vec<AttributeDecl> = Vec::new();
        a.push(attribute("sof", "u1"));
        a.push(attribute("eof", "u1"));
        a.push(attribute("toggle", "u1"));
        a.push(attribute("od_index", "u13"));
        a.push(attribute("client_id", "u8"));
        a.push(attribute("server_id", "u8"));
        let get_resp_header = header("get_resp_header", a);
        let mut a: Vec<AttributeDecl> = Vec::new();
        a.push(attribute("sof", "u1"));
        a.push(attribute("eof", "u1"));
        a.push(attribute("toggle", "u1"));
        a.push(attribute("od_index", "u13"));
        a.push(attribute("client_id", "u8"));
        a.push(attribute("server_id", "u8"));
        let set_req_header = header("set_req_header", a);
        let mut a: Vec<AttributeDecl> = Vec::new();
        a.push(attribute("client_id", "u8"));
        a.push(attribute("server_id", "u8"));
        a.push(attribute("erno", "set_resp_erno"));
        let set_resp_header = header("set_resp_header", a);
        let mut types: Vec<TypeDecl> = Vec::new();
        types.push(status_enum("get_resp_erno"));
        types.push(status_enum("set_resp_erno"));
        types.push(get_req_header);
        types.push(get_resp_header);
        types.push(set_req_header);
        types.push(set_resp_header);
        types.push(status_enum("command_resp_erno"));
        let b = NetworkBuilder(
            NetworkData {
                baudrate: None,
                messages,
                types,
                nodes: Vec::new(),
                get_req_message: 0,
                get_resp_message: 1,
                set_req_message: 2,
                set_resp_message: 3,
                buses: Vec::new(),
            },
        );
        assert forall|m: int| 0 <= m < b.0.messages@.len() implies (#[trigger] b.0.messages@[m]).bus is None by {}
        b
    }

    /// Declares a bus; its index is its id.
    pub fn create_bus(&mut self, name: &str) -> (r: usize)
        requires
            old(self).wf(),
        ensures
            final(self).wf(),
            final(self).0.same_protocol(old(self).0),
            r == old(self).0.buses@.len(),
            final(self).0.buses@.len() == r + 1,
            final(self).0.buses@[r as int].name@ == name@,
            final(self).0.buses@[r as int].baudrate is None,
            forall|b: int| 0 <= b < r ==> final(self).0.buses@[b] == old(self).0.buses@[b],
            final(self).0.baudrate == old(self).0.baudrate,
            final(self).0.messages@ == old(self).0.messages@,
            final(self).0.nodes@ == old(self).0.nodes@,
            final(self).0.types@ == old(self).0.types@,
    {
        let id = self.0.buses.len();
        let name = String::from_str(name);
        self.0.buses.push(BusDecl { name, baudrate: None });
        proof {
            let d = self.0;
            assert forall|i: int| 0 <= i < d.nodes@.len() implies (#[trigger] d.nodes@[i]).wf(
                d.messages@.len(),
                d.buses@.len(),
                d.nodes@,
            ) by {
                assert(old(self).0.nodes@[i].wf(
                    old(self).0.messages@.len(),
                    old(self).0.buses@.len(),
                    old(self).0.nodes@,
                ));
            }
        }
        id
    }

    pub fn set_baudrate(&mut self, baudrate: u32)
        requires
            old(self).wf(),
        ensures
            final(self).wf(),
            final(self).0.same_protocol(old(self).0),
            final(self).0.baudrate == Some(baudrate),
            final(self).0.messages@ == old(self).0.messages@,
            final(self).0.buses@ == old(self).0.buses@,
            final(self).0.nodes@ == old(self).0.nodes@,
            final(self).0.types@ == old(self).0.types@,
    {
        self.0.baudrate = Some(baudrate);
    }

    /// Declares a message with no format, any standard or extended identifier,
    /// and no chosen bus.
    pub fn create_message(&mut self, name: &str, expected_interval_ms: Option<u64>) -> (r: usize)
        requires
            old(self).wf(),
        ensures
            final(self).wf(),
            final(self).0.same_protocol(old(self).0),
            r == old(self).0.messages@.len(),
            final(self).0.messages@.len() == r + 1,
            final(self).0.messages@[r as int].name@ == name@,
            final(self).0.messages@[r as int].expected_interval_ms == expected_interval_ms,
            final(self).0.messages@[r as int].bus is None,
            final(self).0.messages@[r as int].format is Empty,
            final(self).0.messages@[r as int].id == MessageIdTemplate::AnyAny,
            final(self).0.messages@[r as int].description is None,
            forall|m: int| 0 <= m < r ==> final(self).0.messages@[m] == old(self).0.messages@[m],
            final(self).0.buses@ == old(self).0.buses@,
            final(self).0.nodes@ == old(self).0.nodes@,
            final(self).0.types@ == old(self).0.types@,
            final(self).0.baudrate == old(self).0.baudrate,
    {
        let id = self.0.messages.len();
        let name = String::from_str(name);
        self.0.messages.push(
            MessageDecl {
                name,
                description: None,
                id: MessageIdTemplate::AnyAny,
                bus: None,
                format: MessageFormat::Empty,
                expected_interval_ms,
            },
        );
        proof {
            let d = self.0;
            assert forall|m: int| 0 <= m < d.messages@.len() && (#[trigger] d.messages@[m]).bus is Some implies d.messages@[m].bus->0 < d.buses@.len() by {
                if m < id {
                    assert(d.messages@[m] == old(self).0.messages@[m]);
                }
            }
            assert forall|i: int| 0 <= i < d.nodes@.len() implies (#[trigger] d.nodes@[i]).wf(
                d.messages@.len(),
                d.buses@.len(),
                d.nodes@,
            ) by {
                assert(old(self).0.nodes@[i].wf(
                    old(self).0.messages@.len(),
                    old(self).0.buses@.len(),
                    old(self).0.nodes@,
                ));
            }
        }
        id
    }

    /// Declares an enum with no entries yet.
    pub fn define_enum(&mut self, name: &str) -> (r: usize)
        requires
            old(self).wf(),
        ensures
            final(self).wf(),
            final(self).0.same_protocol(old(self).0),
            r == old(self).0.types@.len(),
            final(self).0.types@.len() == r + 1,
            final(self).0.types@[r as int] matches TypeDecl::Enum(e) && e.name@ == name@
                && e.entries@.len() == 0,
            forall|t: int| 0 <= t < r ==> final(self).0.types@[t] == old(self).0.types@[t],
            final(self).0.messages@ == old(self).0.messages@,
            final(self).0.buses@ == old(self).0.buses@,
            final(self).0.nodes@ == old(self).0.nodes@,
            final(self).0.baudrate == old(self).0.baudrate,
    {
        let id = self.0.types.len();
        let name = String::from_str(name);
        self.0.types.push(TypeDecl::Enum(EnumDecl { name, description: None, entries: Vec::new() }));
        id
    }

    /// Declares a struct with no attributes yet.
    pub fn define_struct(&mut self, name: &str) -> (r: usize)
        requires
            old(self).wf(),
        ensures
            final(self).wf(),
            final(self).0.same_protocol(old(self).0),
            r == old(self).0.types@.len(),
            final(self).0.types@.len() == r + 1,
            final(self).0.types@[r as int] matches TypeDecl::Struct(s) && s.name@ == name@
                && s.attributes@.len() == 0,
            forall|t: int| 0 <= t < r ==> final(self).0.types@[t] == old(self).0.types@[t],
            final(self).0.messages@ == old(self).0.messages@,
            final(self).0.buses@ == old(self).0.buses@,
            final(self).0.nodes@ == old(self).0.nodes@,
            final(self).0.baudrate == old(self).0.baudrate,
    {
        let id = self.0.types.len();
        let name = String::from_str(name);
        self.0.types.push(
            TypeDecl::Struct(StructDecl { name, description: None, attributes: Vec::new() }),
        );
        id
    }

    /// Appends an entry to enum `e`; without a value it follows the previous entry.
    pub fn add_enum_entry(&mut self, e: usize, name: &str, value: Option<u64>)
        requires
            old(self).wf(),
        ensures
            final(self).wf(),
            final(self).0.same_protocol(old(self).0),
            final(self).0.types@.len() == old(self).0.types@.len(),
            forall|t: int| 0 <= t < old(self).0.types@.len() && t != e ==> final(self).0.types@[t] == old(self).0.types@[t],
            e < old(self).0.types@.len() && old(self).0.types@[e as int] is Enum ==> (final(self).0.types@[e as int] matches TypeDecl::Enum(d) && d.entries@.len() == old(self).0.types@[e as int]->Enum_0.entries@.len() + 1 && d.entries@.last().name@ == name@ && d.entries@.last().value == value && d.entries@.drop_last() == old(self).0.types@[e as int]->Enum_0.entries@),
            final(self).0.messages@ == old(self).0.messages@,
            final(self).0.buses@ == old(self).0.buses@,
            final(self).0.nodes@ == old(self).0.nodes@,
            final(self).0.baudrate == old(self).0.baudrate,
    {
        if e < self.0.types.len() {
            let mut t = self.0.types.remove(e);
            if let TypeDecl::Enum(d) = &mut t {
                let name = String::from_str(name);
                d.entries.push(EnumEntryDecl { name, value });
            }
            self.0.types.insert(e, t);
            proof {
                assert forall|x: int| 0 <= x < old(self).0.types@.len() && x != e implies final(self).0.types@[x] == old(self).0.types@[x] by {}
            }
        }
    }

    /// Appends an attribute with a type descriptor to struct `s`.
    pub fn add_attribute(&mut self, s: usize, name: &str, ty: &str)
        requires
            old(self).wf(),
        ensures
            final(self).wf(),
            final(self).0.same_protocol(old(self).0),
            final(self).0.types@.len() == old(self).0.types@.len(),
            forall|t: int| 0 <= t < old(self).0.types@.len() && t != s ==> final(self).0.types@[t] == old(self).0.types@[t],
            s < old(self).0.types@.len() && old(self).0.types@[s as int] is Struct ==> (final(self).0.types@[s as int] matches TypeDecl::Struct(d) && d.attributes@.len() == old(self).0.types@[s as int]->Struct_0.attributes@.len() + 1 && d.attributes@.last().name@ == name@ && d.attributes@.last().ty@ == ty@ && d.attributes@.drop_last() == old(self).0.types@[s as int]->Struct_0.attributes@),
            final(self).0.messages@ == old(self).0.messages@,
            final(self).0.buses@ == old(self).0.buses@,
            final(self).0.nodes@ == old(self).0.nodes@,
            final(self).0.baudrate == old(self).0.baudrate,
    {
        if s < self.0.types.len() {
            let mut t = self.0.types.remove(s);
            if let TypeDecl::Struct(d) = &mut t {
                let name = String::from_str(name);
                let ty = String::from_str(ty);
                d.attributes.push(AttributeDecl { name, ty });
            }
            self.0.types.insert(s, t);
            proof {
                assert forall|x: int| 0 <= x < old(self).0.types@.len() && x != s implies final(self).0.types@[x] == old(self).0.types@[x] by {}
            }
        }
    }

    /// Puts back a message taken out by `take_message`, modified.
    proof fn lemma_message_update(old_data: NetworkData, new_data: NetworkData, m: int, msg: MessageDecl)
        requires
            old_data.wf(),
            0 <= m < old_data.messages@.len(),
            new_data.messages@ == old_data.messages@.update(m, msg),
            msg.bus is Some ==> msg.bus->0 < old_data.buses@.len(),
            new_data.buses@ == old_data.buses@,
            new_data.nodes@ == old_data.nodes@,
            new_data.get_req_message == old_data.get_req_message,
            new_data.get_resp_message == old_data.get_resp_message,
            new_data.set_req_message == old_data.set_req_message,
            new_data.set_resp_message == old_data.set_resp_message,
        ensures
            new_data.wf(),
    {
        assert forall|x: int| 0 <= x < new_data.messages@.len() && (#[trigger] new_data.messages@[x]).bus is Some implies new_data.messages@[x].bus->0 < new_data.buses@.len() by {
            if x != m {
                assert(new_data.messages@[x] == old_data.messages@[x]);
            }
        }
        assert forall|i: int| 0 <= i < new_data.nodes@.len() implies (#[trigger] new_data.nodes@[i]).wf(
            new_data.messages@.len(),
            new_data.buses@.len(),
            new_data.nodes@,
        ) by {
            assert(old_data.nodes@[i].wf(
                old_data.messages@.len(),
                old_data.buses@.len(),
                old_data.nodes@,
            ));
        }
    }

    /// A node stays well formed when no node loses tx streams.
    proof fn lemma_wf_transfer(node: NodeDecl, n_messages: nat, n_buses: nat, old_nodes: Seq<NodeDecl>, new_nodes: Seq<NodeDecl>)
        requires
            node.wf(n_messages, n_buses, old_nodes),
            new_nodes.len() == old_nodes.len(),
            forall|i: int| 0 <= i < old_nodes.len() ==> (#[trigger] new_nodes[i]).tx_streams@.len() >= old_nodes[i].tx_streams@.len(),
        ensures
            node.wf(n_messages, n_buses, new_nodes),
    {
        assert forall|k: int| 0 <= k < node.rx_streams@.len() implies (#[trigger] node.rx_streams@[k]).publisher < new_nodes.len()
            && node.rx_streams@[k].stream < new_nodes[node.rx_streams@[k].publisher as int].tx_streams@.len()
            && forall|x: int|
            0 <= x < node.rx_streams@[k].mapping@.len() ==> (#[trigger] node.rx_streams@[k].mapping@[x]).1
                < node.object_entries@.len() by {
            let p = node.rx_streams@[k].publisher as int;
            assert(new_nodes[p].tx_streams@.len() >= old_nodes[p].tx_streams@.len());
        }
    }

    /// Node `n` replaced by `node`, which keeps at least its tx streams.
    proof fn lemma_node_update(old_data: NetworkData, new_data: NetworkData, n: int, node: NodeDecl)
        requires
            old_data.wf(),
            0 <= n < old_data.nodes@.len(),
            new_data.nodes@ == old_data.nodes@.update(n, node),
            node.wf(old_data.messages@.len(), old_data.buses@.len(), old_data.nodes@),
            node.tx_streams@.len() >= old_data.nodes@[n].tx_streams@.len(),
            new_data.messages@ == old_data.messages@,
            new_data.buses@ == old_data.buses@,
            new_data.get_req_message == old_data.get_req_message,
            new_data.get_resp_message == old_data.get_resp_message,
            new_data.set_req_message == old_data.set_req_message,
            new_data.set_resp_message == old_data.set_resp_message,
        ensures
            new_data.wf(),
    {
        assert forall|i: int| 0 <= i < old_data.nodes@.len() implies (#[trigger] new_data.nodes@[i]).tx_streams@.len() >= old_data.nodes@[i].tx_streams@.len() by {
            if i != n {
                assert(new_data.nodes@[i] == old_data.nodes@[i]);
            }
        }
        assert forall|i: int| 0 <= i < new_data.nodes@.len() implies (#[trigger] new_data.nodes@[i]).wf(
            new_data.messages@.len(),
            new_data.buses@.len(),
            new_data.nodes@,
        ) by {
            if i != n {
                let d = old_data.nodes@[i];
                assert(new_data.nodes@[i] == d);
                assert(d.wf(old_data.messages@.len(), old_data.buses@.len(), old_data.nodes@));
                Self::lemma_wf_transfer(d, old_data.messages@.len(), old_data.buses@.len(), old_data.nodes@, new_data.nodes@);
            } else {
                Self::lemma_wf_transfer(node, old_data.messages@.len(), old_data.buses@.len(), old_data.nodes@, new_data.nodes@);
            }
        }
    }

    fn take_message(&mut self, m: usize) -> (r: MessageDecl)
        requires
            m < old(self).0.messages@.len(),
        ensures
            r == old(self).0.messages@[m as int],
            final(self).0.messages@ == old(self).0.messages@.remove(m as int),
            final(self).0.buses@ == old(self).0.buses@,
            final(self).0.nodes@ == old(self).0.nodes@,
            final(self).0.types@ == old(self).0.types@,
            final(self).0.baudrate == old(self).0.baudrate,
            final(self).0.get_req_message == old(self).0.get_req_message,
            final(self).0.get_resp_message == old(self).0.get_resp_message,
            final(self).0.set_req_message == old(self).0.set_req_message,
            final(self).0.set_resp_message == old(self).0.set_resp_message,
    {
        self.0.messages.remove(m)
    }

    fn take_node(&mut self, n: usize) -> (r: NodeDecl)
        requires
            n < old(self).0.nodes@.len(),
        ensures
            r == old(self).0.nodes@[n as int],
            final(self).0.nodes@ == old(self).0.nodes@.remove(n as int),
            final(self).0.buses@ == old(self).0.buses@,
            final(self).0.messages@ == old(self).0.messages@,
            final(self).0.types@ == old(self).0.types@,
            final(self).0.baudrate == old(self).0.baudrate,
            final(self).0.get_req_message == old(self).0.get_req_message,
            final(self).0.get_resp_message == old(self).0.get_resp_message,
            final(self).0.set_req_message == old(self).0.set_req_message,
            final(self).0.set_resp_message == old(self).0.set_resp_message,
    {
        self.0.nodes.remove(n)
    }

    /// Appends a typed field (type descriptor and name) to message `m`; a message
    /// with another format is given a typed one.
    pub fn add_field(&mut self, m: usize, ty: &str, name: &str)
        requires
            old(self).wf(),
            m < old(self).0.messages@.len(),
        ensures
            final(self).wf(),
            final(self).0.same_protocol(old(self).0),
            final(self).0.messages@.len() == old(self).0.messages@.len(),
            final(self).0.buses@ == old(self).0.buses@,
            final(self).0.nodes@ == old(self).0.nodes@,
            final(self).0.types@ == old(self).0.types@,
            final(self).0.baudrate == old(self).0.baudrate,
            final(self).0.messages@[m as int].format matches MessageFormat::Types(f) && f@.len() > 0
                && f@.last().ty@ == ty@ && f@.last().name@ == name@ && (old(self).0.messages@[m as int].format matches MessageFormat::Types(f0) ==> f@.drop_last() == f0@)
                && (!(old(self).0.messages@[m as int].format is Types) ==> f@.len() == 1),
            final(self).0.messages@[m as int].name == old(self).0.messages@[m as int].name,
            final(self).0.messages@[m as int].bus == old(self).0.messages@[m as int].bus,
            final(self).0.messages@[m as int].id == old(self).0.messages@[m as int].id,
            final(self).0.messages@[m as int].expected_interval_ms == old(self).0.messages@[m as int].expected_interval_ms,
            forall|x: int| 0 <= x < old(self).0.messages@.len() && x != m ==> #[trigger] final(self).0.messages@[x] == old(self).0.messages@[x],
    {
        let ghost od = self.0;
        let mut msg = self.take_message(m);
        let ty = String::from_str(ty);
        let name = String::from_str(name);
        let field = FieldDecl { ty, name };
        let format = match msg.format {
            MessageFormat::Types(mut fields) => {
                fields.push(field);
                MessageFormat::Types(fields)
            },
            _ => {
                let mut fields: Vec<FieldDecl> = Vec::new();
                fields.push(field);
                MessageFormat::Types(fields)
            },
        };
        msg.format = format;
        self.0.messages.insert(m, msg);
        proof {
            assert(self.0.messages@ =~= od.messages@.update(m as int, msg));
            Self::lemma_message_update(od, self.0, m as int, msg);
        }
    }

    /// Appends a raw signal to message `m`; a message with another format is given
    /// a raw-signal one.
    pub fn add_signal(&mut self, m: usize, name: &str, kind: Primitive)
        requires
            old(self).wf(),
            m < old(self).0.messages@.len(),
        ensures
            final(self).wf(),
            final(self).0.same_protocol(old(self).0),
            final(self).0.messages@.len() == old(self).0.messages@.len(),
            final(self).0.buses@ == old(self).0.buses@,
            final(self).0.nodes@ == old(self).0.nodes@,
            final(self).0.types@ == old(self).0.types@,
            final(self).0.baudrate == old(self).0.baudrate,
            final(self).0.messages@[m as int].format matches MessageFormat::Signals(f) && f@.len() > 0
                && f@.last().kind == kind && f@.last().name@ == name@,
    {
        let ghost od = self.0;
        let mut msg = self.take_message(m);
        let name = String::from_str(name);
        let signal = SignalDecl { name, kind };
        let format = match msg.format {
            MessageFormat::Signals(mut signals) => {
                signals.push(signal);
                MessageFormat::Signals(signals)
            },
            _ => {
                let mut signals: Vec<SignalDecl> = Vec::new();
                signals.push(signal);
                MessageFormat::Signals(signals)
            },
        };
        msg.format = format;
        self.0.messages.insert(m, msg);
        proof {
            assert(self.0.messages@ =~= od.messages@.update(m as int, msg));
            Self::lemma_message_update(od, self.0, m as int, msg);
        }
    }

    /// Sets the identifier of message `m`.
    pub fn set_message_id(&mut self, m: usize, id: MessageIdTemplate)
        requires
            old(self).wf(),
            m < old(self).0.messages@.len(),
        ensures
            final(self).wf(),
            final(self).0.same_protocol(old(self).0),
            final(self).0.messages@.len() == old(self).0.messages@.len(),
            final(self).0.buses@ == old(self).0.buses@,
            final(self).0.nodes@ == old(self).0.nodes@,
            final(self).0.types@ == old(self).0.types@,
            final(self).0.baudrate == old(self).0.baudrate,
            final(self).0.messages@[m as int].id == id,
    {
        let ghost od = self.0;
        let mut msg = self.take_message(m);
        msg.id = id;
        self.0.messages.insert(m, msg);
        proof {
            assert(self.0.messages@ =~= od.messages@.update(m as int, msg));
            Self::lemma_message_update(od, self.0, m as int, msg);
        }
    }

    /// Sends message `m` on bus `bus`.
    pub fn set_message_bus(&mut self, m: usize, bus: usize)
        requires
            old(self).wf(),
            m < old(self).0.messages@.len(),
            bus < old(self).0.buses@.len(),
        ensures
            final(self).wf(),
            final(self).0.same_protocol(old(self).0),
            final(self).0.messages@.len() == old(self).0.messages@.len(),
            final(self).0.buses@ == old(self).0.buses@,
            final(self).0.nodes@ == old(self).0.nodes@,
            final(self).0.types@ == old(self).0.types@,
            final(self).0.baudrate == old(self).0.baudrate,
            final(self).0.messages@[m as int].bus == Some(bus),
    {
        let ghost od = self.0;
        let mut msg = self.take_message(m);
        msg.bus = Some(bus);
        self.0.messages.insert(m, msg);
        proof {
            assert(self.0.messages@ =~= od.messages@.update(m as int, msg));
            Self::lemma_message_update(od, self.0, m as int, msg);
        }
    }

    /// The node named `name`, declared now if there is none yet.
    pub fn create_node(&mut self, name: &str) -> (r: usize)
        requires
            old(self).wf(),
        ensures
            final(self).wf(),
            final(self).0.same_protocol(old(self).0),
            r < final(self).0.nodes@.len(),
            final(self).0.nodes@[r as int].name@ == name@,
            r < old(self).0.nodes@.len() ==> final(self).0.nodes@ == old(self).0.nodes@ && forall|j: int|
                0 <= j < r ==> #[trigger] old(self).0.nodes@[j].name@ != name@,
            r >= old(self).0.nodes@.len() ==> forall|j: int|
                0 <= j < old(self).0.nodes@.len() ==> #[trigger] old(self).0.nodes@[j].name@ != name@,
            r >= old(self).0.nodes@.len() ==> final(self).0.nodes@[r as int].is_empty(),
            r >= old(self).0.nodes@.len() ==> r == old(self).0.nodes@.len() && final(self).0.nodes@.len() == r + 1 && forall|i: int| 0 <= i < r ==> final(self).0.nodes@[i] == old(self).0.nodes@[i],
            final(self).0.messages@ == old(self).0.messages@,
            final(self).0.buses@ == old(self).0.buses@,
            final(self).0.types@ == old(self).0.types@,
            final(self).0.baudrate == old(self).0.baudrate,
    {
        let text = crate::text::chars_of(name);
        if let Some(i) = find_node(&self.0.nodes, &text) {
            return i;
        }
        let i = self.0.nodes.len();
        let node_name = String::from_str(name);
        let node = NodeDecl {
            name: node_name,
            description: None,
            rx_messages: Vec::new(),
            tx_messages: Vec::new(),
            commands: Vec::new(),
            extern_commands: Vec::new(),
            object_entries: Vec::new(),
            tx_streams: Vec::new(),
            rx_streams: Vec::new(),
            buses: Vec::new(),
        };
        let ghost od = self.0;
        self.0.nodes.push(node);
        proof {
            let d = self.0;
            assert forall|k: int| 0 <= k < d.nodes@.len() implies (#[trigger] d.nodes@[k]).wf(
                d.messages@.len(),
                d.buses@.len(),
                d.nodes@,
            ) by {
                if k < i {
                    let x = od.nodes@[k];
                    assert(d.nodes@[k] == x);
                    assert(x.wf(od.messages@.len(), od.buses@.len(), od.nodes@));
                    assert forall|j: int| 0 <= j < x.rx_streams@.len() implies (#[trigger] x.rx_streams@[j]).publisher < d.nodes@.len()
                        && x.rx_streams@[j].stream < d.nodes@[x.rx_streams@[j].publisher as int].tx_streams@.len()
                        && forall|y: int|
                        0 <= y < x.rx_streams@[j].mapping@.len() ==> (#[trigger] x.rx_streams@[j].mapping@[y]).1
                            < x.object_entries@.len() by {
                        assert(d.nodes@[x.rx_streams@[j].publisher as int] == od.nodes@[x.rx_streams@[j].publisher as int]);
                    }
                }
            }
        }
        i
    }

    /// Receives message `m` on node `n`.
    pub fn add_rx_message(&mut self, n: usize, m: usize)
        requires
            old(self).wf(),
            n < old(self).0.nodes@.len(),
            m < old(self).0.messages@.len(),
        ensures
            final(self).wf(),
            final(self).0.same_protocol(old(self).0),
            final(self).0.nodes@.len() == old(self).0.nodes@.len(),
            final(self).0.nodes@[n as int].rx_messages@ == old(self).0.nodes@[n as int].rx_messages@.push(m),
            final(self).0.messages@ == old(self).0.messages@,
            final(self).0.buses@ == old(self).0.buses@,
            final(self).0.types@ == old(self).0.types@,
            final(self).0.baudrate == old(self).0.baudrate,
    {
        let ghost od = self.0;
        let mut nd = self.take_node(n);
        proof {
            assert(od.nodes@[n as int].wf(od.messages@.len(), od.buses@.len(), od.nodes@));
        }
        nd.rx_messages.push(m);
        self.0.nodes.insert(n, nd);
        proof {
            assert(self.0.nodes@ =~= od.nodes@.update(n as int, nd));
            Self::lemma_node_update(od, self.0, n as int, nd);
        }
    }

    /// Sends message `m` from node `n`.
    pub fn add_tx_message(&mut self, n: usize, m: usize)
        requires
            old(self).wf(),
            n < old(self).0.nodes@.len(),
            m < old(self).0.messages@.len(),
        ensures
            final(self).wf(),
            final(self).0.same_protocol(old(self).0),
            final(self).0.nodes@.len() == old(self).0.nodes@.len(),
            final(self).0.nodes@[n as int].tx_messages@ == old(self).0.nodes@[n as int].tx_messages@.push(m),
            final(self).0.messages@ == old(self).0.messages@,
            final(self).0.buses@ == old(self).0.buses@,
            final(self).0.types@ == old(self).0.types@,
            final(self).0.baudrate == old(self).0.baudrate,
    {
        let ghost od = self.0;
        let mut nd = self.take_node(n);
        proof {
            assert(od.nodes@[n as int].wf(od.messages@.len(), od.buses@.len(), od.nodes@));
        }
        nd.tx_messages.push(m);
        self.0.nodes.insert(n, nd);
        proof {
            assert(self.0.nodes@ =~= od.nodes@.update(n as int, nd));
            Self::lemma_node_update(od, self.0, n as int, nd);
        }
    }

    /// Lets node `n` call the command, owned by another node, whose request is message `request`.
    pub fn add_extern_command(&mut self, n: usize, request: usize)
        requires
            old(self).wf(),
            n < old(self).0.nodes@.len(),
            request < old(self).0.messages@.len(),
        ensures
            final(self).wf(),
            final(self).0.same_protocol(old(self).0),
            final(self).0.nodes@.len() == old(self).0.nodes@.len(),
            final(self).0.nodes@[n as int].extern_commands@ == old(self).0.nodes@[n as int].extern_commands@.push(request),
            final(self).0.messages@ == old(self).0.messages@,
            final(self).0.buses@ == old(self).0.buses@,
            final(self).0.types@ == old(self).0.types@,
            final(self).0.baudrate == old(self).0.baudrate,
    {
        let ghost od = self.0;
        let mut nd = self.take_node(n);
        proof {
            assert(od.nodes@[n as int].wf(od.messages@.len(), od.buses@.len(), od.nodes@));
        }
        nd.extern_commands.push(request);
        self.0.nodes.insert(n, nd);
        proof {
            assert(self.0.nodes@ =~= od.nodes@.update(n as int, nd));
            Self::lemma_node_update(od, self.0, n as int, nd);
        }
    }

    /// Attaches node `n` to bus `bus`.
    pub fn add_node_bus(&mut self, n: usize, bus: usize)
        requires
            old(self).wf(),
            n < old(self).0.nodes@.len(),
            bus < old(self).0.buses@.len(),
        ensures
            final(self).wf(),
            final(self).0.same_protocol(old(self).0),
            final(self).0.nodes@.len() == old(self).0.nodes@.len(),
            final(self).0.nodes@[n as int].buses@ == old(self).0.nodes@[n as int].buses@.push(bus),
            final(self).0.messages@ == old(self).0.messages@,
            final(self).0.buses@ == old(self).0.buses@,
            final(self).0.types@ == old(self).0.types@,
            final(self).0.baudrate == old(self).0.baudrate,
    {
        let ghost od = self.0;
        let mut nd = self.take_node(n);
        proof {
            assert(od.nodes@[n as int].wf(od.messages@.len(), od.buses@.len(), od.nodes@));
        }
        nd.buses.push(bus);
        self.0.nodes.insert(n, nd);
        proof {
            assert(self.0.nodes@ =~= od.nodes@.update(n as int, nd));
            Self::lemma_node_update(od, self.0, n as int, nd);
        }
    }

    /// Gives node `n` a command: a request and a response message. Returns its index.
    pub fn add_command(&mut self, n: usize, name: &str, request: usize, response: usize) -> (r: usize)
        requires
            old(self).wf(),
            n < old(self).0.nodes@.len(),
            request < old(self).0.messages@.len(),
            response < old(self).0.messages@.len(),
        ensures
            final(self).wf(),
            final(self).0.same_protocol(old(self).0),
            final(self).0.nodes@.len() == old(self).0.nodes@.len(),
            r == old(self).0.nodes@[n as int].commands@.len(),
            final(self).0.nodes@[n as int].commands@.len() == r + 1,
            final(self).0.nodes@[n as int].commands@[r as int].request == request,
            final(self).0.nodes@[n as int].commands@[r as int].response == response,
            final(self).0.messages@ == old(self).0.messages@,
            final(self).0.buses@ == old(self).0.buses@,
            final(self).0.types@ == old(self).0.types@,
            final(self).0.baudrate == old(self).0.baudrate,
    {
        let ghost od = self.0;
        let mut nd = self.take_node(n);
        proof {
            assert(od.nodes@[n as int].wf(od.messages@.len(), od.buses@.len(), od.nodes@));
        }
        let r = nd.commands.len();
        let name = String::from_str(name);
        nd.commands.push(CommandDecl { name, description: None, request, response });
        self.0.nodes.insert(n, nd);
        proof {
            assert(self.0.nodes@ =~= od.nodes@.update(n as int, nd));
            Self::lemma_node_update(od, self.0, n as int, nd);
        }
        r
    }

    /// Gives node `n` an object entry with a type descriptor. Returns its index,
    /// which is also its id within the node.
    pub fn add_object_entry(&mut self, n: usize, name: &str, ty: &str, access: Access) -> (r: usize)
        requires
            old(self).wf(),
            n < old(self).0.nodes@.len(),
        ensures
            final(self).wf(),
            final(self).0.same_protocol(old(self).0),
            final(self).0.nodes@.len() == old(self).0.nodes@.len(),
            r == old(self).0.nodes@[n as int].object_entries@.len(),
            final(self).0.nodes@[n as int].object_entries@.len() == r + 1,
            final(self).0.nodes@[n as int].object_entries@.drop_last() == old(self).0.nodes@[n as int].object_entries@,
            final(self).0.nodes@[n as int].object_entries@[r as int].name@ == name@,
            final(self).0.nodes@[n as int].object_entries@[r as int].ty@ == ty@,
            final(self).0.nodes@[n as int].object_entries@[r as int].access == access,
            final(self).0.nodes@[n as int].tx_streams@ == old(self).0.nodes@[n as int].tx_streams@,
            final(self).0.nodes@[n as int].rx_streams@ == old(self).0.nodes@[n as int].rx_streams@,
            forall|j: int| 0 <= j < old(self).0.nodes@.len() && j != n ==> #[trigger] final(self).0.nodes@[j] == old(self).0.nodes@[j],
            final(self).0.messages@ == old(self).0.messages@,
            final(self).0.buses@ == old(self).0.buses@,
            final(self).0.types@ == old(self).0.types@,
            final(self).0.baudrate == old(self).0.baudrate,
    {
        let ghost od = self.0;
        let mut nd = self.take_node(n);
        proof {
            assert(od.nodes@[n as int].wf(od.messages@.len(), od.buses@.len(), od.nodes@));
        }
        let r = nd.object_entries.len();
        let name = String::from_str(name);
        let ty = String::from_str(ty);
        nd.object_entries.push(ObjectEntryDecl { name, description: None, unit: None, ty, access });
        self.0.nodes.insert(n, nd);
        proof {
            assert(self.0.nodes@ =~= od.nodes@.update(n as int, nd));
            Self::lemma_node_update(od, self.0, n as int, nd);
        }
        r
    }

    /// Gives node `n` a published stream on message `message`, carrying the
    /// node's object entries `entries` position by position. Returns its index.
    pub fn add_tx_stream(&mut self, n: usize, name: &str, message: usize, entries: Vec<usize>) -> (r: usize)
        requires
            old(self).wf(),
            n < old(self).0.nodes@.len(),
            message < old(self).0.messages@.len(),
            forall|x: int| 0 <= x < entries@.len() ==> #[trigger] entries@[x] < old(self).0.nodes@[n as int].object_entries@.len(),
        ensures
            final(self).wf(),
            final(self).0.same_protocol(old(self).0),
            final(self).0.nodes@.len() == old(self).0.nodes@.len(),
            r == old(self).0.nodes@[n as int].tx_streams@.len(),
            final(self).0.nodes@[n as int].tx_streams@.len() == r + 1,
            final(self).0.nodes@[n as int].tx_streams@.drop_last() == old(self).0.nodes@[n as int].tx_streams@,
            final(self).0.nodes@[n as int].tx_streams@[r as int].name@ == name@,
            final(self).0.nodes@[n as int].tx_streams@[r as int].message == message,
            final(self).0.nodes@[n as int].tx_streams@[r as int].entries@ == entries@,
            final(self).0.nodes@[n as int].object_entries@ == old(self).0.nodes@[n as int].object_entries@,
            final(self).0.nodes@[n as int].rx_streams@ == old(self).0.nodes@[n as int].rx_streams@,
            forall|j: int| 0 <= j < old(self).0.nodes@.len() && j != n ==> #[trigger] final(self).0.nodes@[j] == old(self).0.nodes@[j],
            final(self).0.messages@ == old(self).0.messages@,
            final(self).0.buses@ == old(self).0.buses@,
            final(self).0.types@ == old(self).0.types@,
            final(self).0.baudrate == old(self).0.baudrate,
    {
        let ghost od = self.0;
        let mut nd = self.take_node(n);
        proof {
            assert(od.nodes@[n as int].wf(od.messages@.len(), od.buses@.len(), od.nodes@));
        }
        let r = nd.tx_streams.len();
        let name = String::from_str(name);
        nd.tx_streams.push(TxStreamDecl { name, description: None, message, entries });
        self.0.nodes.insert(n, nd);
        proof {
            assert(self.0.nodes@ =~= od.nodes@.update(n as int, nd));
            Self::lemma_node_update(od, self.0, n as int, nd);
        }
        r
    }

    /// Subscribes node `n` to stream `stream` of node `publisher`, binding the
    /// given positions of the publisher's stream to object entries of node `n`.
    pub fn add_rx_stream(&mut self, n: usize, publisher: usize, stream: usize, mapping: Vec<(usize, usize)>)
        requires
            old(self).wf(),
            n < old(self).0.nodes@.len(),
            publisher < old(self).0.nodes@.len(),
            stream < old(self).0.nodes@[publisher as int].tx_streams@.len(),
            forall|x: int| 0 <= x < mapping@.len() ==> (#[trigger] mapping@[x]).1 < old(self).0.nodes@[n as int].object_entries@.len(),
        ensures
            final(self).wf(),
            final(self).0.same_protocol(old(self).0),
            final(self).0.nodes@.len() == old(self).0.nodes@.len(),
            final(self).0.nodes@[n as int].rx_streams@ == old(self).0.nodes@[n as int].rx_streams@.push(
                RxStreamDecl { publisher, stream, mapping },
            ),
            final(self).0.nodes@[n as int].object_entries@ == old(self).0.nodes@[n as int].object_entries@,
            final(self).0.nodes@[n as int].tx_streams@ == old(self).0.nodes@[n as int].tx_streams@,
            forall|j: int| 0 <= j < old(self).0.nodes@.len() && j != n ==> #[trigger] final(self).0.nodes@[j] == old(self).0.nodes@[j],
            final(self).0.messages@ == old(self).0.messages@,
            final(self).0.buses@ == old(self).0.buses@,
            final(self).0.types@ == old(self).0.types@,
            final(self).0.baudrate == old(self).0.baudrate,
    {
        let ghost od = self.0;
        let mut nd = self.take_node(n);
        proof {
            assert(od.nodes@[n as int].wf(od.messages@.len(), od.buses@.len(), od.nodes@));
        }
        nd.rx_streams.push(RxStreamDecl { publisher, stream, mapping });
        self.0.nodes.insert(n, nd);
        proof {
            assert(self.0.nodes@ =~= od.nodes@.update(n as int, nd));
            Self::lemma_node_update(od, self.0, n as int, nd);
        }
    }

    /// The object-get request message.
    pub fn _get_req_message(&self) -> (r: usize)
        ensures
            r == self.0.get_req_message,
    {
        self.0.get_req_message
    }

    /// The object-get response message.
    pub fn _get_resp_message(&self) -> (r: usize)
        ensures
            r == self.0.get_resp_message,
    {
        self.0.get_resp_message
    }

    /// The object-set request message.
    pub fn _set_req_message(&self) -> (r: usize)
        ensures
            r == self.0.set_req_message,
    {
        self.0.set_req_message
    }

    /// The object-set response message.
    pub fn _set_resp_message(&self) -> (r: usize)
        ensures
            r == self.0.set_resp_message,
    {
        self.0.set_resp_message
    }
}

} // verus!
