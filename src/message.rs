//! Compiling one message: its signals, field encodings and byte length.
use vstd::prelude::*;

use crate::decl::{FieldDecl, MessageFormat, SignalDecl};
use crate::descriptor::{resolve_type, spec_resolve};
use crate::error::ConfigError;
use crate::flatten::{
    contiguous, end_offset, flatten_ref, has_prefix, lemma_named_compose, named_under, formats, join, lemma_end_is_total, lemma_total_concat,
    ref_below, ref_flat, total_bits, types_wf, Signal, SignalFormat,
};
use crate::typegraph::{lemma_resolve_below, type_names};
use crate::types::{NamedType, TypeRef};

verus! {

/// A resolved message identifier.
#[derive(Debug, Clone, Copy, PartialEq, Eq, Structural)]
pub enum MessageId {
    StandardId(u32),
    ExtendedId(u32),
}

/// Where a field of a typed message lies among the message's signals.
#[derive(Debug, Clone)]
pub struct FieldEncoding {
    pub name: String,
    pub ty: TypeRef,
    /// Index of the field's first signal.
    pub first_signal: usize,
    /// Number of signals the field flattened to.
    pub signal_count: usize,
}

/// The signal formats of the first `n` fields, where each resolves.
pub open spec fn fields_flat(
    types: Seq<NamedType>,
    fields: Seq<FieldDecl>,
    n: int,
) -> Seq<SignalFormat>
    decreases n,
{
    if n <= 0 || n > fields.len() {
        Seq::empty()
    } else {
        match spec_resolve(fields[n - 1].ty@, type_names(types)) {
            Ok(t) => fields_flat(types, fields, n - 1) + ref_flat(types, t, types.len() as int),
            Err(_) => fields_flat(types, fields, n - 1),
        }
    }
}

pub open spec fn signal_formats(signals: Seq<SignalDecl>) -> Seq<SignalFormat> {
    signals.map_values(|s: SignalDecl| SignalFormat { primitive: s.kind, value_table: None })
}

/// The signal formats a message format lays out, in order.
pub open spec fn format_flat(types: Seq<NamedType>, format: MessageFormat) -> Seq<SignalFormat> {
    match format {
        MessageFormat::Empty => Seq::empty(),
        MessageFormat::Signals(s) => signal_formats(s@),
        MessageFormat::Types(f) => fields_flat(types, f@, f@.len() as int),
    }
}

/// Every signal's name starts with `message_name` and an underscore.
pub open spec fn names_prefixed(signals: Seq<Signal>, message_name: Seq<char>) -> bool {
    forall|k: int| 0 <= k < signals.len() ==> has_prefix(#[trigger] signals[k].name@, message_name + seq!['_'])
}

/// The bytes that `bits` bits take: `ceil(bits / 8)`.
pub open spec fn byte_len(bits: nat) -> nat {
    (bits + 7) / 8
}

/// The signals and field encodings of a message format. Raw signals keep their
/// order and get contiguous offsets; typed fields are resolved against the
/// elaborated types and flattened back to back. Signal names start with
/// `message_name`.
pub fn compile_signals(
    types: &Vec<NamedType>,
    names: &Vec<String>,
    message_name: &String,
    format: &MessageFormat,
) -> (r: Result<(Vec<Signal>, Vec<FieldEncoding>), ConfigError>)
    requires
        types_wf(types@),
        names@ == type_names(types@),
    ensures
        r matches Ok((signals, fields)) ==> contiguous(signals@) && formats(signals@) == format_flat(
            types@,
            *format,
        ) && end_offset(signals@) <= u64::MAX && forall|f: int|
            0 <= f < fields@.len() ==> ref_below(#[trigger] fields@[f].ty, types@.len() as int),
        r matches Ok((signals, _)) ==> names_prefixed(signals@, message_name@),
        r matches Err(e) ==> (e == ConfigError::PayloadTooLarge && total_bits(
            format_flat(types@, *format),
        ) > u64::MAX) || (format matches MessageFormat::Types(f) && exists|k: int|
            0 <= k < f@.len() && spec_resolve(#[trigger] f@[k].ty@, names@) == Err::<
                TypeRef,
                ConfigError,
            >(e)),
{
    match format {
        MessageFormat::Empty => {
            let signals: Vec<Signal> = Vec::new();
            let fields: Vec<FieldEncoding> = Vec::new();
            assert(formats(signals@) =~= Seq::<SignalFormat>::empty());
            assert(end_offset(signals@) == 0);
            Ok((signals, fields))
        },
        MessageFormat::Signals(decls) => match compile_raw(message_name, decls) {
            Ok(signals) => {
                let fields: Vec<FieldEncoding> = Vec::new();
                Ok((signals, fields))
            },
            Err(e) => Err(e),
        },
        MessageFormat::Types(decls) => compile_typed(types, names, message_name, decls),
    }
}

/// Raw signals: declaration order, contiguous offsets, names prefixed with the
/// message name.
fn compile_raw(message_name: &String, decls: &Vec<SignalDecl>) -> (r: Result<
    Vec<Signal>,
    ConfigError,
>)
    ensures
        r matches Ok(signals) ==> contiguous(signals@) && formats(signals@) == signal_formats(
            decls@,
        ) && end_offset(signals@) <= u64::MAX,
        r matches Ok(signals) ==> names_prefixed(signals@, message_name@),
        r matches Err(e) ==> e == ConfigError::PayloadTooLarge && total_bits(signal_formats(decls@))
            > u64::MAX,
{
    let mut signals: Vec<Signal> = Vec::new();
    let mut offset: u64 = 0;
    let mut k: usize = 0;
    while k < decls.len()
        invariant
            k <= decls@.len(),
            contiguous(signals@),
            offset == end_offset(signals@),
            formats(signals@) == signal_formats(decls@.subrange(0, k as int)),
            names_prefixed(signals@, message_name@),
        decreases decls@.len() - k,
    {
        let d = &decls[k];
        let bits = d.kind.bits() as u64;
        let sformat = SignalFormat { primitive: d.kind, value_table: None };
        proof {
            lemma_end_is_total(signals@);
            lemma_signal_prefix(decls@, k as int);
        }
        if offset > u64::MAX - bits {
            return Err(ConfigError::PayloadTooLarge);
        }
        let name = join(message_name, d.name.as_str());
        let ghost before = signals@;
        signals.push(Signal { name, offset, format: sformat });
        proof {
            let pre = message_name@ + seq!['_'];
            assert(signals@[k as int].name@.subrange(0, pre.len() as int) =~= pre);
            assert forall|x: int| 0 <= x < signals@.len() implies has_prefix(#[trigger] signals@[x].name@, pre) by {
                if x < before.len() {
                    assert(signals@[x] == before[x]);
                }
            }
            assert(formats(signals@) =~= formats(before) + seq![sformat]);
            assert forall|x: int| 0 < x < signals@.len() implies #[trigger] signals@[x].offset
                == signals@[x - 1].offset + signals@[x - 1].spec_width() by {
                if x < before.len() {
                    assert(signals@[x] == before[x] && signals@[x - 1] == before[x - 1]);
                }
            }
        }
        offset = offset + bits;
        k += 1;
    }
    assert(decls@.subrange(0, k as int) =~= decls@);
    Ok(signals)
}

/// Typed fields: each descriptor resolved against the elaborated types and
/// flattened, fields back to back.
fn compile_typed(
    types: &Vec<NamedType>,
    names: &Vec<String>,
    message_name: &String,
    decls: &Vec<FieldDecl>,
) -> (r: Result<(Vec<Signal>, Vec<FieldEncoding>), ConfigError>)
    requires
        types_wf(types@),
        names@ == type_names(types@),
    ensures
        r matches Ok((signals, fields)) ==> contiguous(signals@) && formats(signals@) == fields_flat(
            types@,
            decls@,
            decls@.len() as int,
        ) && end_offset(signals@) <= u64::MAX && forall|f: int|
            0 <= f < fields@.len() ==> ref_below(#[trigger] fields@[f].ty, types@.len() as int),
        r matches Ok((signals, _)) ==> names_prefixed(signals@, message_name@),
        r matches Err(e) ==> (e == ConfigError::PayloadTooLarge && total_bits(
            fields_flat(types@, decls@, decls@.len() as int),
        ) > u64::MAX) || exists|k: int|
            0 <= k < decls@.len() && spec_resolve(#[trigger] decls@[k].ty@, names@) == Err::<
                TypeRef,
                ConfigError,
            >(e),
{
    let mut signals: Vec<Signal> = Vec::new();
    let mut fields: Vec<FieldEncoding> = Vec::new();
    let mut offset: u64 = 0;
    let mut k: usize = 0;
    assert(formats(signals@) =~= fields_flat(types@, decls@, 0));
    assert(signals@ =~= Seq::<Signal>::empty());
    while k < decls.len()
        invariant
            types_wf(types@),
            names@ == type_names(types@),
            k <= decls@.len(),
            contiguous(signals@),
            offset == end_offset(signals@),
            formats(signals@) == fields_flat(types@, decls@, k as int),
            forall|f: int| 0 <= f < fields@.len() ==> ref_below(#[trigger] fields@[f].ty, types@.len() as int),
            named_under(Seq::<Signal>::empty(), signals@, message_name@ + seq!['_']),
        decreases decls@.len() - k,
    {
        let d = &decls[k];
        let ty = match resolve_type(names, d.ty.as_str()) {
            Ok(t) => t,
            Err(e) => {
                proof {
                    assert(spec_resolve(decls@[k as int].ty@, names@) == Err::<TypeRef, ConfigError>(
                        e,
                    ));
                }
                return Err(e);
            },
        };
        proof {
            lemma_resolve_below(d.ty@, names@);
        }
        let name = join(message_name, d.name.as_str());
        let first = signals.len();
        let ghost mid = formats(signals@);
        let ghost part = ref_flat(types@, ty, types@.len() as int);
        assert(fields_flat(types@, decls@, k + 1) == mid + part);
        let ghost sig0 = signals@;
        match flatten_ref(types, ty, types.len(), &name, offset, &mut signals) {
            Ok(end) => {
                offset = end;
                proof {
                    let pre = message_name@ + seq!['_'];
                    assert(name@.subrange(0, pre.len() as int) =~= pre);
                    lemma_named_compose(Seq::<Signal>::empty(), sig0, signals@, pre, name@);
                }
            },
            Err(e) => {
                proof {
                    lemma_total_concat(mid, part);
                    lemma_fields_total_grows(types@, decls@, k as int + 1, decls@.len() as int);
                }
                return Err(e);
            },
        }
        proof {
            assert(formats(signals@).len() == signals@.len());
            assert(formats(signals@).len() == mid.len() + part.len());
        }
        let count = signals.len() - first;
        let fname = d.name.clone();
        fields.push(FieldEncoding { name: fname, ty, first_signal: first, signal_count: count });
        k += 1;
    }
    Ok((signals, fields))
}

proof fn lemma_signal_prefix(decls: Seq<SignalDecl>, k: int)
    requires
        0 <= k < decls.len(),
    ensures
        signal_formats(decls.subrange(0, k + 1)) == signal_formats(decls.subrange(0, k)) + seq![
            SignalFormat { primitive: decls[k].kind, value_table: None },
        ],
        total_bits(signal_formats(decls.subrange(0, k + 1))) <= total_bits(signal_formats(decls)),
        total_bits(signal_formats(decls.subrange(0, k + 1))) == total_bits(
            signal_formats(decls.subrange(0, k)),
        ) + decls[k].kind.spec_bits(),
{
    let f = SignalFormat { primitive: decls[k].kind, value_table: None };
    let a = signal_formats(decls.subrange(0, k));
    assert(signal_formats(decls.subrange(0, k + 1)) =~= a + seq![f]);
    lemma_total_concat(a, seq![f]);
    reveal_with_fuel(total_bits, 2);
    let head = decls.subrange(0, k + 1);
    let tail = decls.subrange(k + 1, decls.len() as int);
    assert(signal_formats(decls) =~= signal_formats(head) + signal_formats(tail));
    lemma_total_concat(signal_formats(head), signal_formats(tail));
}

proof fn lemma_fields_total_grows(types: Seq<NamedType>, fields: Seq<FieldDecl>, m: int, n: int)
    requires
        0 <= m <= n <= fields.len(),
    ensures
        total_bits(fields_flat(types, fields, m)) <= total_bits(fields_flat(types, fields, n)),
    decreases n - m,
{
    if m < n {
        lemma_fields_total_grows(types, fields, m, n - 1);
        match spec_resolve(fields[n - 1].ty@, type_names(types)) {
            Ok(t) => {
                lemma_total_concat(
                    fields_flat(types, fields, n - 1),
                    ref_flat(types, t, types.len() as int),
                );
            },
            Err(_) => {},
        }
    }
}

/// The byte length of a payload of `bits` bits.
pub fn dlc_of(bits: u64) -> (r: u64)
    ensures
        r as nat == byte_len(bits as nat),
{
    bits / 8 + if bits % 8 == 0 {
        0
    } else {
        1
    }
}

/// In a contiguous run of signals, the byte length taken from the end of the last
/// signal is the byte length of all the signals' widths together.
pub proof fn lemma_dlc_counts_all_bits(signals: Seq<Signal>)
    requires
        contiguous(signals),
    ensures
        byte_len(end_offset(signals)) == byte_len(total_bits(formats(signals))),
{
    lemma_end_is_total(signals);
}

} // verus!
