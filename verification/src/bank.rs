//! One bank of an image: a full-size byte image holding one or more ROM
//! slots packed from offset 0, with padding after the last slot.
use vstd::prelude::*;
use crate::catalog::RomLayout;
use crate::text::{dec, push_dec};

verus! {

/// What removing a bank or a slot does to the ones after it.
#[derive(Clone, Copy, Debug, PartialEq, Eq, Structural)]
pub enum RemovePolicy {
    /// Leave the removed place empty; later entries keep their positions.
    Blank,
    /// Close the gap; later entries move down.
    Compact,
}

impl RemovePolicy {
    /// The user-facing name of the policy.
    pub fn label(self) -> (text: &'static str)
        ensures
            text@ == (match self {
                RemovePolicy::Blank => "Keep Blank"@,
                RemovePolicy::Compact => "Collapse Over Blank"@,
            }),
    {
        match self {
            RemovePolicy::Blank => "Keep Blank",
            RemovePolicy::Compact => "Collapse Over Blank",
        }
    }
}

/// One ROM placed inside a bank. Slots are laid contiguously from the bank
/// start; several can share a bank, with blank free space trailing them.
#[derive(Clone, Debug)]
pub struct BankSlot {
    pub label: String,
    /// Where the ROM was loaded from, as display text.
    pub source_path: Option<String>,
    pub len: usize,
    /// True for a slot kept as blank padding in place (removed with Keep Blank).
    pub blank: bool,
}

#[derive(Clone, Debug)]
pub struct RomBank {
    /// Full bank image (always the bank size): slot contents packed from the
    /// start, with the trailing free space filled with the pad byte.
    pub data: Vec<u8>,
    /// Occupied ROM slots, laid contiguously from offset 0.
    pub slots: Vec<BankSlot>,
    /// Editable name for the trailing free space.
    pub remainder_label: String,
}

/// One slot entry parsed from a metadata sidecar.
#[derive(Clone, Debug)]
pub struct SlotSpec {
    pub len: usize,
    pub label: String,
    pub blank: bool,
}

/// A bank's slot configuration parsed from a metadata sidecar.
#[derive(Clone, Debug)]
pub struct BankLayout {
    pub slots: Vec<SlotSpec>,
    pub remainder_label: String,
}

/// The content of a `SlotSpec`.
pub struct SlotSpecView {
    pub len: usize,
    pub label: Seq<char>,
    pub blank: bool,
}

/// The content of a `BankLayout`.
pub struct BankLayoutView {
    pub slots: Seq<SlotSpecView>,
    pub remainder_label: Seq<char>,
}

impl View for SlotSpec {
    type V = SlotSpecView;

    open spec fn view(&self) -> SlotSpecView {
        SlotSpecView { len: self.len, label: self.label@, blank: self.blank }
    }
}

impl View for BankLayout {
    type V = BankLayoutView;

    open spec fn view(&self) -> BankLayoutView {
        BankLayoutView {
            slots: self.slots@.map_values(|s: SlotSpec| s@),
            remainder_label: self.remainder_label@,
        }
    }
}

impl Default for BankLayout {
    fn default() -> (layout: Self)
        ensures
            layout.slots@.len() == 0,
            layout.remainder_label@.len() == 0,
    {
        BankLayout { slots: Vec::new(), remainder_label: String::new() }
    }
}

/// Total length of a run of slots.
pub open spec fn slot_total(slots: Seq<BankSlot>) -> nat
    decreases slots.len(),
{
    if slots.len() == 0 {
        0
    } else {
        slot_total(slots.drop_last()) + slots.last().len as nat
    }
}

/// Total length of a run of slot specifications.
pub open spec fn spec_total(slots: Seq<SlotSpec>) -> nat
    decreases slots.len(),
{
    if slots.len() == 0 {
        0
    } else {
        spec_total(slots.drop_last()) + slots.last().len as nat
    }
}

/// Sum of the byte values.
pub open spec fn byte_sum(bytes: Seq<u8>) -> nat
    decreases bytes.len(),
{
    if bytes.len() == 0 {
        0
    } else {
        byte_sum(bytes.drop_last()) + bytes.last() as nat
    }
}

/// The 16-bit additive checksum: the byte sum modulo 2^16.
pub open spec fn checksum(bytes: Seq<u8>) -> u16 {
    (byte_sum(bytes) % 65536) as u16
}

/// `bytes` with positions `from..to` set to `value`.
pub open spec fn filled(bytes: Seq<u8>, from: int, to: int, value: u8) -> Seq<u8> {
    Seq::new(bytes.len(), |i: int| if from <= i < to { value } else { bytes[i] })
}

/// `bytes` with the `len` bytes at `start` cut out of the occupied area
/// `0..used`: later bytes move down and the freed tail is set to `pad`.
pub open spec fn compacted(bytes: Seq<u8>, start: int, len: int, used: int, pad: u8) -> Seq<u8> {
    Seq::new(
        bytes.len(),
        |i: int|
            if start <= i < used - len {
                bytes[i + len]
            } else if used - len <= i < used {
                pad
            } else {
                bytes[i]
            },
    )
}

/// The label of the trailing free space of a new bank.
pub open spec fn free_label() -> Seq<char> {
    "Free"@
}

/// Error text for a ROM whose size is not the layout's unit size.
pub open spec fn size_mismatch_message(layout: RomLayout, got: nat) -> Seq<char> {
    layout.name@ + " ROM must be exactly "@ + dec(layout.unit_size as nat) + " bytes, got "@ + dec(got)
        + " bytes"@
}

/// Error text for a partial ROM larger than the layout's unit size.
pub open spec fn too_large_message(layout: RomLayout, got: nat) -> Seq<char> {
    layout.name@ + " ROM must be at most "@ + dec(layout.unit_size as nat) + " bytes, got "@ + dec(got)
        + " bytes"@
}

/// Error text for an empty ROM.
pub open spec fn empty_rom_message() -> Seq<char> {
    "ROM is empty"@
}

/// Error text for a ROM that does not fit the free space of a bank.
pub open spec fn no_room_message(got: nat, free: nat) -> Seq<char> {
    "ROM is "@ + dec(got) + " bytes but only "@ + dec(free) + " bytes are free in this bank"@
}

/// Error text for a slot layout longer than its bank.
pub open spec fn layout_overflow_message(total: nat, bank_len: nat) -> Seq<char> {
    "slot layout needs "@ + dec(total) + " bytes but the bank is only "@ + dec(bank_len) + " bytes"@
}

pub proof fn lemma_slot_total_step(slots: Seq<BankSlot>, i: int)
    requires
        0 <= i < slots.len(),
    ensures
        slot_total(slots.take(i + 1)) == slot_total(slots.take(i)) + slots[i].len,
{
    assert(slots.take(i + 1).drop_last() =~= slots.take(i));
}

pub proof fn lemma_slot_total_prefix(slots: Seq<BankSlot>, i: int, j: int)
    requires
        0 <= i <= j <= slots.len(),
    ensures
        slot_total(slots.take(i)) <= slot_total(slots.take(j)),
    decreases j - i,
{
    if i < j {
        lemma_slot_total_step(slots, j - 1);
        lemma_slot_total_prefix(slots, i, j - 1);
    }
}

pub proof fn lemma_slot_total_whole(slots: Seq<BankSlot>)
    ensures
        slots.take(slots.len() as int) == slots,
{
    assert(slots.take(slots.len() as int) =~= slots);
}

pub proof fn lemma_spec_total_step(slots: Seq<SlotSpec>, i: int)
    requires
        0 <= i < slots.len(),
    ensures
        spec_total(slots.take(i + 1)) == spec_total(slots.take(i)) + slots[i].len,
{
    assert(slots.take(i + 1).drop_last() =~= slots.take(i));
}

pub proof fn lemma_spec_total_prefix(slots: Seq<SlotSpec>, i: int, j: int)
    requires
        0 <= i <= j <= slots.len(),
    ensures
        spec_total(slots.take(i)) <= spec_total(slots.take(j)),
    decreases j - i,
{
    if i < j {
        lemma_spec_total_step(slots, j - 1);
        lemma_spec_total_prefix(slots, i, j - 1);
    }
}

pub proof fn lemma_byte_sum_step(bytes: Seq<u8>, from: int, i: int)
    requires
        0 <= from <= i < bytes.len(),
    ensures
        byte_sum(bytes.subrange(from, i + 1)) == byte_sum(bytes.subrange(from, i)) + bytes[i],
{
    assert(bytes.subrange(from, i + 1).drop_last() =~= bytes.subrange(from, i));
}

/// Checksum of `data[from..to]`.
fn checksum_range(data: &Vec<u8>, from: usize, to: usize) -> (sum: u16)
    requires
        from <= to <= data@.len(),
    ensures
        sum == checksum(data@.subrange(from as int, to as int)),
{
    let mut sum: u16 = 0;
    let mut i = from;
    assert(data@.subrange(from as int, from as int) =~= Seq::<u8>::empty());
    while i < to
        invariant
            from <= i <= to <= data@.len(),
            sum == checksum(data@.subrange(from as int, i as int)),
        decreases to - i,
    {
        let byte = data[i];
        proof {
            lemma_byte_sum_step(data@, from as int, i as int);
            let before = byte_sum(data@.subrange(from as int, i as int));
            vstd::arithmetic::div_mod::lemma_add_mod_noop(before as int, byte as int, 65536);
            vstd::arithmetic::div_mod::lemma_small_mod(byte as nat, 65536);
        }
        sum = sum.wrapping_add(byte as u16);
        i += 1;
    }
    sum
}

/// Checks that a ROM image is exactly one bank of `layout`.
pub fn validate_rom_size(layout: RomLayout, data: &[u8]) -> (result: Result<(), String>)
    ensures
        result is Ok <==> data@.len() == layout.unit_size,
        result matches Err(e) ==> e@ == size_mismatch_message(layout, data@.len()),
{
    if data.len() == layout.unit_size {
        Ok(())
    } else {
        let mut e = String::from_str(layout.name);
        e.append(" ROM must be exactly ");
        push_dec(&mut e, layout.unit_size);
        e.append(" bytes, got ");
        push_dec(&mut e, data.len());
        e.append(" bytes");
        Err(e)
    }
}

fn default_remainder_label() -> (label: String)
    ensures
        label@ == free_label(),
{
    String::from_str("Free")
}

impl RomBank {
    /// Bytes occupied by the slots.
    pub open spec fn spec_used(self) -> nat {
        slot_total(self.slots@)
    }

    /// Offset of slot `index`: the total length of the slots before it.
    pub open spec fn spec_slot_start(self, index: int) -> nat {
        slot_total(self.slots@.take(index))
    }

    /// The slots fit inside the bank image.
    pub open spec fn fits(self) -> bool {
        self.spec_used() <= self.data@.len()
    }

    /// The bytes of slot `index`.
    pub open spec fn spec_slot_bytes(self, index: int) -> Seq<u8> {
        self.data@.subrange(
            self.spec_slot_start(index) as int,
            self.spec_slot_start(index) + self.slots@[index].len,
        )
    }

    /// Builds a bank holding one full-size ROM.
    pub fn from_slice(layout: RomLayout, label: String, data: &[u8]) -> (result: Result<Self, String>)
        ensures
            match result {
                Ok(bank) => {
                    &&& data@.len() == layout.unit_size
                    &&& bank.data@ == data@
                    &&& bank.slots@ == seq![
                        BankSlot { label, source_path: None, len: data@.len() as usize, blank: false },
                    ]
                    &&& bank.remainder_label@ == free_label()
                },
                Err(e) => data@.len() != layout.unit_size && e@ == size_mismatch_message(layout, data@.len()),
            },
    {
        validate_rom_size(layout, data)?;
        let slot = BankSlot { label, source_path: None, len: data.len(), blank: false };
        let mut slots: Vec<BankSlot> = Vec::new();
        slots.push(slot);
        Ok(RomBank {
            data: vstd::slice::slice_to_vec(data),
            slots,
            remainder_label: default_remainder_label(),
        })
    }

    /// Builds a bank from a ROM smaller than (or equal to) the bank size,
    /// padding the remainder with `pad_byte`.
    pub fn from_partial(layout: RomLayout, label: String, data: &[u8], pad_byte: u8) -> (result: Result<Self, String>)
        ensures
            match result {
                Ok(bank) => {
                    &&& 0 < data@.len() <= layout.unit_size
                    &&& bank.data@ == Seq::new(
                        layout.unit_size as nat,
                        |i: int| if i < data@.len() { data@[i] } else { pad_byte },
                    )
                    &&& bank.slots@ == seq![
                        BankSlot { label, source_path: None, len: data@.len() as usize, blank: false },
                    ]
                    &&& bank.remainder_label@ == free_label()
                },
                Err(e) => {
                    &&& data@.len() == 0 ==> e@ == empty_rom_message()
                    &&& data@.len() > 0 ==> data@.len() > layout.unit_size && e@ == too_large_message(
                        layout,
                        data@.len(),
                    )
                },
            },
    {
        if data.len() == 0 {
            return Err(String::from_str("ROM is empty"));
        }
        if data.len() > layout.unit_size {
            let mut e = String::from_str(layout.name);
            e.append(" ROM must be at most ");
            push_dec(&mut e, layout.unit_size);
            e.append(" bytes, got ");
            push_dec(&mut e, data.len());
            e.append(" bytes");
            return Err(e);
        }
        let len = data.len();
        let mut full = vstd::slice::slice_to_vec(data);
        while full.len() < layout.unit_size
            invariant
                len == data@.len(),
                len <= full@.len() <= layout.unit_size,
                forall|i: int| 0 <= i < full@.len() ==> full@[i] == (if i < len { data@[i] } else { pad_byte }),
            decreases layout.unit_size - full@.len(),
        {
            full.push(pad_byte);
        }
        assert(full@ =~= Seq::new(
            layout.unit_size as nat,
            |i: int| if i < data@.len() { data@[i] } else { pad_byte },
        ));
        let mut slots: Vec<BankSlot> = Vec::new();
        slots.push(BankSlot { label, source_path: None, len, blank: false });
        Ok(RomBank { data: full, slots, remainder_label: default_remainder_label() })
    }

    /// Bytes occupied by the slots.
    pub fn used(&self) -> (used: usize)
        requires
            self.spec_used() <= usize::MAX,
        ensures
            used == self.spec_used(),
    {
        proof {
            lemma_slot_total_whole(self.slots@);
        }
        self.slot_start(self.slots.len())
    }

    /// Bytes left after the last slot.
    pub fn free(&self) -> (free: usize)
        requires
            self.fits(),
        ensures
            free == self.data@.len() - self.spec_used(),
    {
        self.data.len() - self.used()
    }

    /// Offset of slot `index` within the bank.
    pub fn slot_start(&self, index: usize) -> (start: usize)
        requires
            index <= self.slots@.len(),
            self.spec_slot_start(index as int) <= usize::MAX,
        ensures
            start == self.spec_slot_start(index as int),
    {
        let mut total: usize = 0;
        let mut i: usize = 0;
        assert(self.slots@.take(0) =~= Seq::<BankSlot>::empty());
        while i < index
            invariant
                i <= index <= self.slots@.len(),
                total == slot_total(self.slots@.take(i as int)),
                slot_total(self.slots@.take(index as int)) <= usize::MAX,
            decreases index - i,
        {
            proof {
                lemma_slot_total_step(self.slots@, i as int);
                lemma_slot_total_prefix(self.slots@, i + 1, index as int);
            }
            total = total + self.slots[i].len;
            i += 1;
        }
        total
    }

    /// Name of the first slot, or the empty string for a bank without slots.
    pub fn primary_label(&self) -> (label: &str)
        ensures
            label@ == (if self.slots@.len() > 0 {
                self.slots@[0].label@
            } else {
                Seq::<char>::empty()
            }),
    {
        if self.slots.len() > 0 {
            self.slots[0].label.as_str()
        } else {
            proof {
                reveal_strlit("");
            }
            ""
        }
    }

    /// Places a ROM into the bank's trailing free space, creating a new slot.
    pub fn add_into_free(&mut self, label: String, source_path: Option<String>, content: &[u8]) -> (result: Result<(), String>)
        requires
            content@.len() > 0 ==> old(self).fits(),
        ensures
            result is Ok <==> (content@.len() > 0 && content@.len() <= old(self).data@.len() - old(self).spec_used()),
            match result {
                Ok(()) => {
                    let start = old(self).spec_used() as int;
                    &&& final(self).data@ == old(self).data@.take(start) + content@ + old(self).data@.skip(
                        start + content@.len(),
                    )
                    &&& final(self).slots@ == old(self).slots@.push(
                        BankSlot { label, source_path, len: content@.len() as usize, blank: false },
                    )
                    &&& final(self).remainder_label == old(self).remainder_label
                },
                Err(e) => {
                    &&& *final(self) == *old(self)
                    &&& content@.len() == 0 ==> e@ == empty_rom_message()
                    &&& content@.len() > 0 ==> e@ == no_room_message(
                        content@.len(),
                        (old(self).data@.len() - old(self).spec_used()) as nat,
                    )
                },
            },
    {
        if content.len() == 0 {
            return Err(String::from_str("ROM is empty"));
        }
        let free = self.free();
        if content.len() > free {
            let mut e = String::from_str("ROM is ");
            push_dec(&mut e, content.len());
            e.append(" bytes but only ");
            push_dec(&mut e, free);
            e.append(" bytes are free in this bank");
            return Err(e);
        }
        let data_len = self.data.len();
        let start = self.used();
        let n = content.len();
        let mut k: usize = 0;
        while k < n
            invariant
                start == old(self).spec_used(),
                n == content@.len(),
                start + n <= self.data@.len(),
                self.data@.len() == data_len,
                data_len == old(self).data@.len(),
                self.slots == old(self).slots,
                self.remainder_label == old(self).remainder_label,
                k <= n,
                forall|i: int|
                    0 <= i < self.data@.len() ==> self.data@[i] == (if start <= i < start + k {
                        content@[i - start]
                    } else {
                        old(self).data@[i]
                    }),
            decreases n - k,
        {
            self.data.set(start + k, content[k]);
            k += 1;
        }
        assert(self.data@ =~= old(self).data@.take(start as int) + content@ + old(self).data@.skip(
            start + content@.len(),
        ));
        self.slots.push(BankSlot { label, source_path, len: n, blank: false });
        Ok(())
    }

    /// Removes a slot according to the policy. `Blank` pads the slot in place and
    /// keeps it (later slots keep their offsets); `Compact` deletes it, shifts
    /// later slots down, and pads the freed tail. An index past the last slot
    /// leaves the bank unchanged.
    pub fn remove_slot(&mut self, index: usize, policy: RemovePolicy, pad_byte: u8)
        requires
            index < old(self).slots@.len() ==> old(self).fits(),
        ensures
            index >= old(self).slots@.len() ==> *final(self) == *old(self),
            index < old(self).slots@.len() ==> {
                let start = old(self).spec_slot_start(index as int) as int;
                let slot = old(self).slots@[index as int];
                &&& final(self).remainder_label == old(self).remainder_label
                &&& match policy {
                    RemovePolicy::Blank => {
                        &&& final(self).data@ == filled(old(self).data@, start, start + slot.len, pad_byte)
                        &&& final(self).slots@ == old(self).slots@.update(
                            index as int,
                            BankSlot { label: slot.label, source_path: None, len: slot.len, blank: true },
                        )
                    },
                    RemovePolicy::Compact => {
                        &&& final(self).data@ == compacted(
                            old(self).data@,
                            start,
                            slot.len as int,
                            old(self).spec_used() as int,
                            pad_byte,
                        )
                        &&& final(self).slots@ == old(self).slots@.remove(index as int)
                    },
                }
            },
    {
        if index >= self.slots.len() {
            return;
        }
        let data_len = self.data.len();
        proof {
            lemma_slot_total_whole(self.slots@);
            lemma_slot_total_step(self.slots@, index as int);
            lemma_slot_total_prefix(self.slots@, index + 1, self.slots@.len() as int);
        }
        let start = self.slot_start(index);
        let len = self.slots[index].len;
        match policy {
            RemovePolicy::Blank => {
                let mut k = start;
                while k < start + len
                    invariant
                        start + len <= data_len,
                        self.data@.len() == data_len,
                        self.slots == old(self).slots,
                        self.remainder_label == old(self).remainder_label,
                        start <= k <= start + len,
                        forall|i: int|
                            0 <= i < data_len ==> self.data@[i] == (if start <= i < k {
                                pad_byte
                            } else {
                                old(self).data@[i]
                            }),
                    decreases start + len - k,
                {
                    self.data.set(k, pad_byte);
                    k += 1;
                }
                assert(self.data@ =~= filled(old(self).data@, start as int, start + len, pad_byte));
                let mut slot = self.slots.remove(index);
                slot.blank = true;
                slot.source_path = None;
                self.slots.insert(index, slot);
                assert(self.slots@ =~= old(self).slots@.update(
                    index as int,
                    BankSlot {
                        label: old(self).slots@[index as int].label,
                        source_path: None,
                        len,
                        blank: true,
                    },
                ));
            },
            RemovePolicy::Compact => {
                let used = self.used();
                let mut k = start;
                while k < used - len
                    invariant
                        start + len <= used <= data_len,
                        used == old(self).spec_used(),
                        self.data@.len() == data_len,
                        self.slots == old(self).slots,
                        self.remainder_label == old(self).remainder_label,
                        start <= k <= used - len,
                        forall|i: int|
                            0 <= i < data_len ==> self.data@[i] == (if start <= i < k {
                                old(self).data@[i + len]
                            } else {
                                old(self).data@[i]
                            }),
                    decreases used - len - k,
                {
                    let moved = self.data[k + len];
                    self.data.set(k, moved);
                    k += 1;
                }
                let mut k = used - len;
                while k < used
                    invariant
                        start + len <= used <= data_len,
                        used == old(self).spec_used(),
                        self.data@.len() == data_len,
                        self.slots == old(self).slots,
                        self.remainder_label == old(self).remainder_label,
                        used - len <= k <= used,
                        forall|i: int|
                            0 <= i < data_len ==> self.data@[i] == (if start <= i < used - len {
                                old(self).data@[i + len]
                            } else if used - len <= i < k {
                                pad_byte
                            } else {
                                old(self).data@[i]
                            }),
                    decreases used - k,
                {
                    self.data.set(k, pad_byte);
                    k += 1;
                }
                assert(self.data@ =~= compacted(
                    old(self).data@,
                    start as int,
                    len as int,
                    used as int,
                    pad_byte,
                ));
                self.slots.remove(index);
            },
        }
    }

    /// Folds a bank back down once its content is gone. Returns `true` when every
    /// slot is blank (the bank should become a single unused bank). Otherwise, if
    /// only the primary slot is occupied and every sub-slot is blank, the blank
    /// sub-slots are dropped so their space merges into one trailing free region.
    pub fn collapse_if_unused(&mut self) -> (unused: bool)
        ensures
            unused == (forall|i: int| 0 <= i < old(self).slots@.len() ==> old(self).slots@[i].blank),
            final(self).data == old(self).data,
            final(self).remainder_label == old(self).remainder_label,
            final(self).slots@ == (if !unused && old(self).slots@.len() > 1 && (forall|i: int|
                1 <= i < old(self).slots@.len() ==> old(self).slots@[i].blank) {
                old(self).slots@.take(1)
            } else {
                old(self).slots@
            }),
    {
        let n = self.slots.len();
        let mut all_blank = true;
        let mut tail_blank = true;
        let mut i: usize = 0;
        while i < n
            invariant
                n == self.slots@.len(),
                i <= n,
                all_blank == (forall|k: int| 0 <= k < i ==> self.slots@[k].blank),
                tail_blank == (forall|k: int| 1 <= k < i ==> self.slots@[k].blank),
            decreases n - i,
        {
            if !self.slots[i].blank {
                all_blank = false;
                if i >= 1 {
                    tail_blank = false;
                }
            }
            i += 1;
        }
        if all_blank {
            return true;
        }
        if n > 1 && tail_blank {
            self.slots.truncate(1);
            assert(self.slots@ =~= old(self).slots@.take(1));
        }
        false
    }

    /// Rebuilds a bank from a full bank image plus a slot layout (used when
    /// re-importing with a metadata sidecar).
    pub fn from_layout(bank_data: &[u8], slots: &[SlotSpec], remainder_label: String) -> (result: Result<Self, String>)
        requires
            spec_total(slots@) <= usize::MAX,
        ensures
            result is Ok <==> spec_total(slots@) <= bank_data@.len(),
            match result {
                Ok(bank) => {
                    &&& bank.data@ == bank_data@
                    &&& bank.remainder_label == remainder_label
                    &&& bank.slots@.len() == slots@.len()
                    &&& forall|j: int|
                        0 <= j < slots@.len() ==> #[trigger] bank.slots@[j] == (BankSlot {
                            label: slots@[j].label,
                            source_path: None,
                            len: slots@[j].len,
                            blank: slots@[j].blank,
                        })
                },
                Err(e) => e@ == layout_overflow_message(spec_total(slots@), bank_data@.len()),
            },
    {
        let mut total: usize = 0;
        let mut i: usize = 0;
        assert(slots@.take(0) =~= Seq::<SlotSpec>::empty());
        while i < slots.len()
            invariant
                i <= slots@.len(),
                total == spec_total(slots@.take(i as int)),
                spec_total(slots@) <= usize::MAX,
            decreases slots@.len() - i,
        {
            proof {
                lemma_spec_total_step(slots@, i as int);
                lemma_spec_total_prefix(slots@, i + 1, slots@.len() as int);
                assert(slots@.take(slots@.len() as int) =~= slots@);
            }
            total = total + slots[i].len;
            i += 1;
        }
        assert(slots@.take(slots@.len() as int) =~= slots@);
        if total > bank_data.len() {
            let mut e = String::from_str("slot layout needs ");
            push_dec(&mut e, total);
            e.append(" bytes but the bank is only ");
            push_dec(&mut e, bank_data.len());
            e.append(" bytes");
            return Err(e);
        }
        let mut built: Vec<BankSlot> = Vec::new();
        let mut j: usize = 0;
        while j < slots.len()
            invariant
                j <= slots@.len(),
                built@.len() == j,
                forall|k: int|
                    0 <= k < j ==> #[trigger] built@[k] == (BankSlot {
                        label: slots@[k].label,
                        source_path: None,
                        len: slots@[k].len,
                        blank: slots@[k].blank,
                    }),
            decreases slots@.len() - j,
        {
            let spec = &slots[j];
            built.push(BankSlot {
                label: spec.label.clone(),
                source_path: None,
                len: spec.len,
                blank: spec.blank,
            });
            j += 1;
        }
        Ok(RomBank { data: vstd::slice::slice_to_vec(bank_data), slots: built, remainder_label })
    }

    /// Checksum of the whole bank image.
    pub fn checksum16(&self) -> (sum: u16)
        ensures
            sum == checksum(self.data@),
    {
        let sum = checksum_range(&self.data, 0, self.data.len());
        assert(self.data@.subrange(0, self.data@.len() as int) =~= self.data@);
        sum
    }

    /// Checksum of the bytes of slot `index`.
    pub fn slot_checksum16(&self, index: usize) -> (sum: u16)
        requires
            index < self.slots@.len(),
            self.fits(),
        ensures
            sum == checksum(self.spec_slot_bytes(index as int)),
    {
        proof {
            lemma_slot_total_whole(self.slots@);
            lemma_slot_total_step(self.slots@, index as int);
            lemma_slot_total_prefix(self.slots@, index + 1, self.slots@.len() as int);
        }
        let data_len = self.data.len();
        let start = self.slot_start(index);
        let end = start + self.slots[index].len;
        checksum_range(&self.data, start, end)
    }

    /// Whether any non-blank slot's checksum is in `duplicates`.
    pub fn has_duplicate_slot(&self, duplicates: &std::collections::HashSet<u16>) -> (found: bool)
        requires
            self.fits(),
        ensures
            found == (exists|i: int|
                0 <= i < self.slots@.len() && !self.slots@[i].blank && duplicates@.contains(
                    checksum(#[trigger] self.spec_slot_bytes(i)),
                )),
    {
        broadcast use vstd::std_specs::hash::group_hash_axioms;
        let n = self.slots.len();
        let mut i: usize = 0;
        while i < n
            invariant
                n == self.slots@.len(),
                i <= n,
                self.fits(),
                forall|k: int|
                    0 <= k < i ==> !(!self.slots@[k].blank && duplicates@.contains(
                        checksum(#[trigger] self.spec_slot_bytes(k)),
                    )),
            decreases n - i,
        {
            if !self.slots[i].blank {
                let sum = self.slot_checksum16(i);
                if duplicates.contains(&sum) {
                    return true;
                }
            }
            i += 1;
        }
        false
    }
}

} // verus!
