use std::collections::HashMap;
use vstd::prelude::*;
use vstd::arithmetic::power2::{pow2, lemma_pow2_pos, lemma_pow2_strictly_increases, lemma2_to64, lemma2_to64_rest};
use vstd::bits::{low_bits_mask, lemma_u64_shr_is_div, lemma_u64_shl_is_mul, lemma_u64_low_bits_mask_is_mod};

verus! {

/// The extended-frame marker bit of a raw CAN identifier.
pub const EFF_FLAG: u32 = 0x8000_0000;

/// The number of payload bytes of a classic CAN frame.
pub const PAYLOAD_LEN: usize = 8;

/// How the 8 payload bytes are read as one 64-bit word.
#[derive(Debug, Clone, Copy, PartialEq, Eq, Structural)]
pub enum ByteOrder {
    /// Byte 0 is the least significant.
    LittleEndian,
    /// Byte 0 is the most significant.
    BigEndian,
}

/// A named bit field within a message payload.
#[derive(Debug, Clone, PartialEq, Eq)]
pub struct SignalDescriptor {
    pub name: String,
    pub start_bit: u64,
    pub length: u64,
    pub byte_order: ByteOrder,
}

/// A message layout: its identifier, its name and its signals in catalog order.
#[derive(Debug, Clone, PartialEq, Eq)]
pub struct MessageDescriptor {
    pub message_id: u32,
    pub name: String,
    pub signals: Vec<SignalDescriptor>,
}

/// The raw, unscaled value of one signal of a decoded frame.
#[derive(Debug, Clone, PartialEq, Eq)]
pub struct DecodedSignal {
    pub name: String,
    pub raw: u64,
}

/// Why a catalog could not be built or a frame could not be decoded.
#[derive(Debug, Clone, Copy, PartialEq, Eq, Structural)]
pub enum CanError {
    /// A signal does not fit in 64 bits, or two messages share a key.
    InvalidCatalog,
    /// No message of the catalog has the frame's identifier.
    UnknownMessage,
    /// The payload is not exactly 8 bytes long.
    ShortFrame,
}

/// The payload read with byte 0 as the least significant byte.
pub open spec fn le_word(p: Seq<u8>) -> nat {
    (p[0] + 0x100 * p[1] + 0x1_0000 * p[2] + 0x100_0000 * p[3]
        + 0x1_0000_0000 * p[4] + 0x100_0000_0000 * p[5] + 0x1_0000_0000_0000 * p[6]
        + 0x100_0000_0000_0000 * p[7]) as nat
}

/// The payload read with byte 0 as the most significant byte.
pub open spec fn be_word(p: Seq<u8>) -> nat {
    (p[7] + 0x100 * p[6] + 0x1_0000 * p[5] + 0x100_0000 * p[4]
        + 0x1_0000_0000 * p[3] + 0x100_0000_0000 * p[2] + 0x1_0000_0000_0000 * p[1]
        + 0x100_0000_0000_0000 * p[0]) as nat
}

pub open spec fn payload_word(p: Seq<u8>, order: ByteOrder) -> nat {
    match order {
        ByteOrder::LittleEndian => le_word(p),
        ByteOrder::BigEndian => be_word(p),
    }
}

/// The `length` bits of `word` that start at bit `start`.
pub open spec fn field_value(word: nat, start: nat, length: nat) -> nat {
    (word / pow2(start)) % pow2(length)
}

/// A signal's geometry lies within the 64 bits of a payload.
pub open spec fn signal_fits(s: SignalDescriptor) -> bool {
    s.start_bit + s.length <= 64
}

pub open spec fn all_signals_fit(signals: Seq<SignalDescriptor>) -> bool {
    forall|j: int| 0 <= j < signals.len() ==> #[trigger] signal_fits(signals[j])
}

/// The raw value of a signal in an 8-byte payload.
pub open spec fn signal_raw(s: SignalDescriptor, p: Seq<u8>) -> nat {
    field_value(payload_word(p, s.byte_order), s.start_bit as nat, s.length as nat)
}

/// The decoded values of a message's signals, in catalog order.
pub open spec fn decoded_matches(
    out: Seq<DecodedSignal>,
    signals: Seq<SignalDescriptor>,
    p: Seq<u8>,
) -> bool {
    &&& out.len() == signals.len()
    &&& forall|j: int|
        0 <= j < signals.len() ==> {
            &&& (#[trigger] out[j]).name@ == signals[j].name@
            &&& out[j].raw as nat == signal_raw(signals[j], p)
        }
}

/// Reads the 8 payload bytes as one word in the given byte order.
pub fn payload_to_word(p: &[u8], order: ByteOrder) -> (r: u64)
    requires
        p@.len() == PAYLOAD_LEN,
    ensures
        r as nat == payload_word(p@, order),
{
    let b0 = p[0] as u64;
    let b1 = p[1] as u64;
    let b2 = p[2] as u64;
    let b3 = p[3] as u64;
    let b4 = p[4] as u64;
    let b5 = p[5] as u64;
    let b6 = p[6] as u64;
    let b7 = p[7] as u64;
    match order {
        ByteOrder::LittleEndian => b0 + 0x100 * b1 + 0x1_0000 * b2 + 0x100_0000 * b3
            + 0x1_0000_0000 * b4 + 0x100_0000_0000 * b5 + 0x1_0000_0000_0000 * b6
            + 0x100_0000_0000_0000 * b7,
        ByteOrder::BigEndian => b7 + 0x100 * b6 + 0x1_0000 * b5 + 0x100_0000 * b4
            + 0x1_0000_0000 * b3 + 0x100_0000_0000 * b2 + 0x1_0000_0000_0000 * b1
            + 0x100_0000_0000_0000 * b0,
    }
}

/// Shifts `word` right by `start` and keeps the low `length` bits.
pub fn extract_field(word: u64, start: u64, length: u64) -> (r: u64)
    requires
        start + length <= 64,
    ensures
        r as nat == field_value(word as nat, start as nat, length as nat),
{
    proof {
        lemma2_to64();
        lemma2_to64_rest();
        lemma_pow2_pos(start as nat);
        lemma_pow2_pos(length as nat);
    }
    let shifted: u64 = if start < 64 {
        proof {
            lemma_u64_shr_is_div(word, start);
        }
        word >> start
    } else {
        0
    };
    assert(shifted as nat == word as nat / pow2(start as nat)) by {
        if start == 64 {
            assert(word as nat / pow2(64) == 0) by (nonlinear_arith)
                requires
                    word < 0x1_0000_0000_0000_0000nat,
                    pow2(64) == 0x1_0000_0000_0000_0000nat,
            ;
        }
    }
    if length < 64 {
        proof {
            lemma_pow2_strictly_increases(length as nat, 64);
            lemma_u64_shl_is_mul(1, length);
            lemma_u64_low_bits_mask_is_mod(shifted, length as nat);
        }
        let mask: u64 = (1u64 << length) - 1;
        assert(mask == low_bits_mask(length as nat) as u64);
        shifted & mask
    } else {
        assert(shifted as nat % pow2(64) == shifted as nat) by (nonlinear_arith)
            requires
                shifted < 0x1_0000_0000_0000_0000nat,
                pow2(64) == 0x1_0000_0000_0000_0000nat,
        ;
        shifted
    }
}

/// Decodes every signal of `msg`, in catalog order, from an 8-byte payload.
pub fn decode(msg: &MessageDescriptor, payload: &[u8]) -> (r: Result<Vec<DecodedSignal>, CanError>)
    ensures
        payload@.len() != PAYLOAD_LEN ==> r == Err::<Vec<DecodedSignal>, CanError>(
            CanError::ShortFrame,
        ),
        payload@.len() == PAYLOAD_LEN && !all_signals_fit(msg.signals@) ==> r == Err::<
            Vec<DecodedSignal>,
            CanError,
        >(CanError::InvalidCatalog),
        payload@.len() == PAYLOAD_LEN && all_signals_fit(msg.signals@) ==> (r matches Ok(out)
            && decoded_matches(out@, msg.signals@, payload@)),
{
    if payload.len() != PAYLOAD_LEN {
        return Err(CanError::ShortFrame);
    }
    let signals = &msg.signals;
    let mut out: Vec<DecodedSignal> = Vec::new();
    let mut i: usize = 0;
    while i < signals.len()
        invariant
            i <= signals@.len(),
            signals@ == msg.signals@,
            payload@.len() == PAYLOAD_LEN,
            out@.len() == i,
            forall|j: int| 0 <= j < i ==> #[trigger] signal_fits(signals@[j]),
            forall|j: int|
                0 <= j < i ==> {
                    &&& (#[trigger] out@[j]).name@ == signals@[j].name@
                    &&& out@[j].raw as nat == signal_raw(signals@[j], payload@)
                },
        decreases signals@.len() - i,
    {
        let s = &signals[i];
        if s.start_bit > 64 || s.length > 64 - s.start_bit {
            assert(!signal_fits(signals@[i as int]));
            assert(!all_signals_fit(msg.signals@));
            return Err(CanError::InvalidCatalog);
        }
        let word = payload_to_word(payload, s.byte_order);
        let raw = extract_field(word, s.start_bit, s.length);
        out.push(DecodedSignal { name: s.name.clone(), raw });
        i += 1;
    }
    Ok(out)
}

/// The catalog key of a raw identifier: the extended-frame marker is cleared.
pub open spec fn catalog_key(id: u32) -> u32 {
    id & !EFF_FLAG
}

/// The index that a model of messages gives: each message under its key.
pub open spec fn catalog_of(ms: Seq<MessageDescriptor>) -> Map<u32, MessageDescriptor>
    decreases ms.len(),
{
    if ms.len() == 0 {
        Map::empty()
    } else {
        catalog_of(ms.drop_first()).insert(catalog_key(ms[0].message_id), ms[0])
    }
}

/// No two messages of the model share a key.
pub open spec fn keys_distinct(ms: Seq<MessageDescriptor>) -> bool {
    forall|i: int, j: int|
        0 <= i < j < ms.len() ==> catalog_key(#[trigger] ms[i].message_id) != catalog_key(
            #[trigger] ms[j].message_id,
        )
}

/// A model from which a catalog can be built.
pub open spec fn model_valid(ms: Seq<MessageDescriptor>) -> bool {
    &&& keys_distinct(ms)
    &&& forall|i: int| 0 <= i < ms.len() ==> all_signals_fit(#[trigger] ms[i].signals@)
}

proof fn lemma_catalog_of_dom(ms: Seq<MessageDescriptor>, k: u32)
    ensures
        catalog_of(ms).contains_key(k) <==> exists|j: int|
            0 <= j < ms.len() && catalog_key(#[trigger] ms[j].message_id) == k,
    decreases ms.len(),
{
    if ms.len() > 0 {
        lemma_catalog_of_dom(ms.drop_first(), k);
        if catalog_of(ms.drop_first()).contains_key(k) {
            let j = choose|j: int|
                0 <= j < ms.drop_first().len() && catalog_key(
                    #[trigger] ms.drop_first()[j].message_id,
                ) == k;
            assert(ms[j + 1] == ms.drop_first()[j]);
        }
        if exists|j: int| 0 <= j < ms.len() && catalog_key(#[trigger] ms[j].message_id) == k {
            let j = choose|j: int| 0 <= j < ms.len() && catalog_key(#[trigger] ms[j].message_id) == k;
            if j > 0 {
                assert(ms.drop_first()[j - 1] == ms[j]);
            }
        }
    }
}

proof fn lemma_catalog_of_entry(ms: Seq<MessageDescriptor>, i: int)
    requires
        keys_distinct(ms),
        0 <= i < ms.len(),
    ensures
        catalog_of(ms).contains_key(catalog_key(ms[i].message_id)),
        catalog_of(ms)[catalog_key(ms[i].message_id)] == ms[i],
    decreases ms.len(),
{
    if i > 0 {
        let rest = ms.drop_first();
        assert(rest[i - 1] == ms[i]);
        assert(keys_distinct(rest)) by {
            assert forall|a: int, b: int| 0 <= a < b < rest.len() implies catalog_key(
                #[trigger] rest[a].message_id,
            ) != catalog_key(#[trigger] rest[b].message_id) by {
                assert(rest[a] == ms[a + 1] && rest[b] == ms[b + 1]);
            }
        }
        lemma_catalog_of_entry(rest, i - 1);
        assert(catalog_key(ms[0].message_id) != catalog_key(ms[i].message_id));
    }
}

/// A read-only index from catalog key to message layout.
pub struct Catalog {
    messages: HashMap<u32, MessageDescriptor>,
}

impl View for Catalog {
    type V = Map<u32, MessageDescriptor>;

    closed spec fn view(&self) -> Map<u32, MessageDescriptor> {
        self.messages@
    }
}

impl Catalog {
    /// Every entry sits under its own key and all its signals fit in a payload.
    pub open spec fn well_formed(&self) -> bool {
        forall|k: u32|
            #[trigger] self@.contains_key(k) ==> catalog_key(self@[k].message_id) == k
                && all_signals_fit(self@[k].signals@)
    }

    /// Builds the catalog of a model, keyed by identifier with the extended marker cleared.
    pub fn build(model: Vec<MessageDescriptor>) -> (r: Result<Catalog, CanError>)
        ensures
            r is Ok <==> model_valid(model@),
            !model_valid(model@) ==> r == Err::<Catalog, CanError>(CanError::InvalidCatalog),
            r matches Ok(c) ==> c@ == catalog_of(model@) && c.well_formed(),
    {
        broadcast use vstd::std_specs::hash::group_hash_axioms;

        let ghost all = model@;
        let mut messages = model;
        let mut map: HashMap<u32, MessageDescriptor> = HashMap::new();
        while messages.len() > 0
            invariant
                all == model@,
                messages@.len() <= all.len(),
                messages@ == all.subrange(0, messages@.len() as int),
                map@ == catalog_of(all.subrange(messages@.len() as int, all.len() as int)),
                model_valid(all.subrange(messages@.len() as int, all.len() as int)),
            decreases messages@.len(),
        {
            let ghost n = messages@.len() as int;
            let ghost done = all.subrange(n, all.len() as int);
            let m = messages.pop().unwrap();
            let ghost next = all.subrange(n - 1, all.len() as int);
            assert(m == all[n - 1]);
            assert(next[0] == m);
            assert(next.drop_first() =~= done);
            if !signals_fit(&m.signals) {
                assert(!all_signals_fit(all[n - 1].signals@));
                assert(!model_valid(all));
                return Err(CanError::InvalidCatalog);
            }
            let key = m.message_id & !EFF_FLAG;
            if map.contains_key(&key) {
                proof {
                    lemma_catalog_of_dom(done, key);
                    let j = choose|j: int|
                        0 <= j < done.len() && catalog_key(#[trigger] done[j].message_id) == key;
                    assert(done[j] == all[n + j]);
                    assert(catalog_key(all[n - 1].message_id) == catalog_key(
                        all[n + j].message_id,
                    ));
                    assert(!keys_distinct(all));
                    assert(!model_valid(all));
                }
                return Err(CanError::InvalidCatalog);
            }
            proof {
                lemma_catalog_of_dom(done, key);
                assert forall|a: int, b: int| 0 <= a < b < next.len() implies catalog_key(
                    #[trigger] next[a].message_id,
                ) != catalog_key(#[trigger] next[b].message_id) by {
                    if a == 0 {
                        assert(next[b] == done[b - 1]);
                    } else {
                        assert(next[a] == done[a - 1] && next[b] == done[b - 1]);
                    }
                }
                assert forall|i: int| 0 <= i < next.len() implies all_signals_fit(
                    #[trigger] next[i].signals@,
                ) by {
                    if i > 0 {
                        assert(next[i] == done[i - 1]);
                    }
                }
            }
            map.insert(key, m);
        }
        assert(all.subrange(0, all.len() as int) =~= all);
        let c = Catalog { messages: map };
        proof {
            assert forall|k: u32| #[trigger] c@.contains_key(k) implies catalog_key(
                c@[k].message_id,
            ) == k && all_signals_fit(c@[k].signals@) by {
                lemma_catalog_of_dom(all, k);
                let j = choose|j: int| 0 <= j < all.len() && catalog_key(#[trigger] all[j].message_id) == k;
                lemma_catalog_of_entry(all, j);
            }
        }
        Ok(c)
    }

    /// The layout of the message that a frame identifier names.
    pub fn lookup(&self, message_id: u32) -> (r: Result<&MessageDescriptor, CanError>)
        ensures
            self@.contains_key(catalog_key(message_id)) ==> (r matches Ok(m) && *m
                == self@[catalog_key(message_id)]),
            !self@.contains_key(catalog_key(message_id)) ==> r == Err::<
                &MessageDescriptor,
                CanError,
            >(CanError::UnknownMessage),
    {
        broadcast use vstd::std_specs::hash::group_hash_axioms;

        match self.messages.get(&(message_id & !EFF_FLAG)) {
            Some(m) => Ok(m),
            None => Err(CanError::UnknownMessage),
        }
    }

    /// Decodes a frame: looks its identifier up, then decodes its payload.
    pub fn decode_frame(&self, message_id: u32, payload: &[u8]) -> (r: Result<
        Vec<DecodedSignal>,
        CanError,
    >)
        requires
            self.well_formed(),
        ensures
            !self@.contains_key(catalog_key(message_id)) ==> r == Err::<
                Vec<DecodedSignal>,
                CanError,
            >(CanError::UnknownMessage),
            self@.contains_key(catalog_key(message_id)) && payload@.len() != PAYLOAD_LEN ==> r
                == Err::<Vec<DecodedSignal>, CanError>(CanError::ShortFrame),
            self@.contains_key(catalog_key(message_id)) && payload@.len() == PAYLOAD_LEN ==> (r matches Ok(
                out,
            ) && decoded_matches(out@, self@[catalog_key(message_id)].signals@, payload@)),
    {
        let msg = self.lookup(message_id)?;
        decode(msg, payload)
    }
}

/// Whether every signal lies within the 64 bits of a payload.
pub fn signals_fit(signals: &Vec<SignalDescriptor>) -> (r: bool)
    ensures
        r == all_signals_fit(signals@),
{
    let mut i: usize = 0;
    while i < signals.len()
        invariant
            i <= signals@.len(),
            forall|j: int| 0 <= j < i ==> #[trigger] signal_fits(signals@[j]),
        decreases signals@.len() - i,
    {
        let s = &signals[i];
        if s.start_bit > 64 || s.length > 64 - s.start_bit {
            assert(!signal_fits(signals@[i as int]));
            return false;
        }
        i += 1;
    }
    true
}

/// Lookup after build: a catalog built from a model holds every message of
/// the model under its key, with its signals in the order given, and holds no
/// key that no message of the model has.
pub proof fn lemma_lookup_after_build(model: Seq<MessageDescriptor>, c: Catalog, id: u32)
    requires
        model_valid(model),
        c@ == catalog_of(model),
    ensures
        forall|i: int|
            0 <= i < model.len() && catalog_key(#[trigger] model[i].message_id) == catalog_key(
                id,
            ) ==> c@.contains_key(catalog_key(id)) && c@[catalog_key(id)] == model[i]
                && c@[catalog_key(id)].signals@ == model[i].signals@,
        (forall|i: int|
            0 <= i < model.len() ==> catalog_key(#[trigger] model[i].message_id) != catalog_key(
                id,
            )) ==> !c@.contains_key(catalog_key(id)),
{
    assert forall|i: int|
        0 <= i < model.len() && catalog_key(#[trigger] model[i].message_id) == catalog_key(
            id,
        ) implies c@.contains_key(catalog_key(id)) && c@[catalog_key(id)] == model[i] by {
        lemma_catalog_of_entry(model, i);
    }
    lemma_catalog_of_dom(model, catalog_key(id));
}

/// Decoding is deterministic: two results of decoding the same signals from
/// the same payload agree on every name and every value.
pub proof fn lemma_decode_deterministic(
    a: Seq<DecodedSignal>,
    b: Seq<DecodedSignal>,
    signals: Seq<SignalDescriptor>,
    payload: Seq<u8>,
)
    requires
        decoded_matches(a, signals, payload),
        decoded_matches(b, signals, payload),
    ensures
        a.len() == b.len(),
        forall|j: int| 0 <= j < a.len() ==> (#[trigger] a[j]).name@ == b[j].name@ && a[j].raw == b[j].raw,
{
}

/// Round trip: when the payload word holds `v` at the signal's position and
/// nothing else, the signal decodes to exactly `v`.
pub proof fn lemma_field_round_trip(s: SignalDescriptor, payload: Seq<u8>, v: nat)
    requires
        signal_fits(s),
        v < pow2(s.length as nat),
        payload_word(payload, s.byte_order) == v * pow2(s.start_bit as nat),
    ensures
        signal_raw(s, payload) == v,
{
    let p = pow2(s.start_bit as nat);
    lemma_pow2_pos(s.start_bit as nat);
    lemma_pow2_pos(s.length as nat);
    vstd::arithmetic::mul::lemma_mul_is_commutative(v as int, p as int);
    vstd::arithmetic::div_mod::lemma_div_multiples_vanish(v as int, p as int);
    vstd::arithmetic::div_mod::lemma_small_mod(v, pow2(s.length as nat));
}

/// Byte-order sensitivity: a one-byte signal at bit 0 reads byte 0 of the
/// payload in little-endian order and byte 7 in big-endian order, so the two
/// readings differ whenever those bytes differ.
pub proof fn lemma_byte_order_sensitivity(name: String, payload: Seq<u8>)
    requires
        payload.len() == PAYLOAD_LEN,
    ensures
        ({
            let le = SignalDescriptor {
                name,
                start_bit: 0,
                length: 8,
                byte_order: ByteOrder::LittleEndian,
            };
            let be = SignalDescriptor { byte_order: ByteOrder::BigEndian, ..le };
            &&& signal_raw(le, payload) == payload[0]
            &&& signal_raw(be, payload) == payload[7]
            &&& payload[0] != payload[7] ==> signal_raw(le, payload) != signal_raw(be, payload)
        }),
{
    lemma2_to64();
    let lw = le_word(payload);
    let bw = be_word(payload);
    let hi_l = (payload[1] + 0x100 * payload[2] + 0x1_0000 * payload[3] + 0x100_0000 * payload[4]
        + 0x1_0000_0000 * payload[5] + 0x100_0000_0000 * payload[6] + 0x1_0000_0000_0000
        * payload[7]) as int;
    let hi_b = (payload[6] + 0x100 * payload[5] + 0x1_0000 * payload[4] + 0x100_0000 * payload[3]
        + 0x1_0000_0000 * payload[2] + 0x100_0000_0000 * payload[1] + 0x1_0000_0000_0000
        * payload[0]) as int;
    assert(lw == payload[0] + 256 * hi_l);
    assert(bw == payload[7] + 256 * hi_b);
    vstd::arithmetic::div_mod::lemma_mod_multiples_vanish(hi_l, payload[0] as int, 256);
    vstd::arithmetic::div_mod::lemma_mod_multiples_vanish(hi_b, payload[7] as int, 256);
    vstd::arithmetic::div_mod::lemma_small_mod(payload[0] as nat, 256);
    vstd::arithmetic::div_mod::lemma_small_mod(payload[7] as nat, 256);
}

} // verus!
