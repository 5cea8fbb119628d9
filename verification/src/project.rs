//! Project files: the record of an image and its editing settings that a
//! `.romproj` archive stores, and the image rebuilt from one.
use vstd::prelude::*;
use crate::bank::{BankSlot, RemovePolicy, RomBank};
use crate::catalog::{Chip, RomLayout, chip_by_id, chip_table, find_chip, find_layout, layout_by_id, layout_table};
use crate::image::ProjectImage;
use crate::text::{dec, dec_width, push_dec, push_dec_width, str_equal};

verus! {

/// The version written into project files.
pub const PROJECT_VERSION: u32 = 1;

/// UI parameters persisted alongside the image so a reopened project restores
/// the full editing state.
#[derive(Clone, Copy, Debug)]
pub struct ProjectSettings {
    pub remove_policy: RemovePolicy,
    pub multi_rom_image: bool,
    pub allow_larger_chip: bool,
    pub layout_by_size: bool,
}

/// Result of loading a `.romproj` file.
#[derive(Debug)]
pub struct LoadedProject {
    pub image: ProjectImage,
    pub settings: ProjectSettings,
}

/// The `project.json` record of a project.
#[derive(Clone, Debug)]
pub struct ProjectFile {
    pub version: u32,
    pub chip_id: String,
    pub layout_id: String,
    pub pad_byte: u8,
    pub remove_policy: String,
    pub multi_rom_image: bool,
    pub allow_larger_chip: bool,
    pub layout_by: String,
    pub banks: Vec<BankEntry>,
}

/// The record of one populated bank; its bytes are stored as `binary`.
#[derive(Clone, Debug)]
pub struct BankEntry {
    pub index: usize,
    pub binary: String,
    pub remainder_label: String,
    pub slots: Vec<SlotEntry>,
}

/// The record of one slot.
#[derive(Clone, Debug)]
pub struct SlotEntry {
    pub label: String,
    pub len: usize,
    pub blank: bool,
    pub source: Option<String>,
}

/// Every catalog layout has a non-empty bank size.
pub proof fn lemma_layout_table_sizes()
    ensures
        forall|i: int| 0 <= i < layout_table().len() ==> #[trigger] layout_table()[i].unit_size > 0,
{
}

/// A layout found in a table of layouts with non-empty banks has non-empty banks.
pub proof fn lemma_found_layout_size(table: Seq<RomLayout>, id: Seq<char>)
    requires
        forall|i: int| 0 <= i < table.len() ==> #[trigger] table[i].unit_size > 0,
    ensures
        find_layout(table, id) matches Some(l) ==> l.unit_size > 0,
    decreases table.len(),
{
    if table.len() > 0 {
        assert(table[0].unit_size > 0);
        assert forall|i: int| 0 <= i < table.drop_first().len() implies #[trigger] table.drop_first()[i].unit_size
            > 0 by {
            assert(table.drop_first()[i] == table[i + 1]);
        }
        lemma_found_layout_size(table.drop_first(), id);
    }
}

/// The id that a project file stores for a removal policy.
pub open spec fn policy_id(policy: RemovePolicy) -> Seq<char> {
    match policy {
        RemovePolicy::Blank => "blank"@,
        RemovePolicy::Compact => "compact"@,
    }
}

/// The removal policy that a project file's id stands for; anything but
/// `compact` reads as `Blank`.
pub open spec fn policy_of_id(id: Seq<char>) -> RemovePolicy {
    if id == "compact"@ {
        RemovePolicy::Compact
    } else {
        RemovePolicy::Blank
    }
}

/// The archive path of the bytes of bank `index`.
pub open spec fn binary_name(index: nat) -> Seq<char> {
    "banks/bank_"@ + dec_width(index, 3) + ".bin"@
}

/// The positions of the populated banks, in order.
pub open spec fn populated_positions(banks: Seq<Option<RomBank>>) -> Seq<int>
    decreases banks.len(),
{
    if banks.len() == 0 {
        Seq::empty()
    } else {
        populated_positions(banks.drop_last()) + if banks.last() is Some {
            seq![banks.len() - 1]
        } else {
            Seq::empty()
        }
    }
}

/// `entry` records bank `index` holding `rom`.
pub open spec fn entry_records(entry: BankEntry, index: int, rom: RomBank) -> bool {
    &&& entry.index == index
    &&& entry.binary@ == binary_name(index as nat)
    &&& entry.remainder_label == rom.remainder_label
    &&& entry.slots@.len() == rom.slots@.len()
    &&& forall|j: int|
        0 <= j < rom.slots@.len() ==> #[trigger] entry.slots@[j] == (SlotEntry {
            label: rom.slots@[j].label,
            len: rom.slots@[j].len,
            blank: rom.slots@[j].blank,
            source: rom.slots@[j].source_path,
        })
}

/// `entry` records the populated bank at `pos`, which lies below `bound`.
pub open spec fn entry_at(entry: BankEntry, pos: int, banks: Seq<Option<RomBank>>, bound: int) -> bool {
    &&& 0 <= pos < bound
    &&& banks[pos] is Some
    &&& entry_records(entry, pos, banks[pos]->Some_0)
}

/// Bank `i` as loading the first `n` entries leaves it.
pub open spec fn bank_loaded_from(
    bank: Option<RomBank>,
    file: ProjectFile,
    bank_data: Seq<Result<Vec<u8>, String>>,
    i: int,
    n: nat,
) -> bool {
    match last_entry_for(file.banks@, i, n) {
        Some(k) => bank is Some && loaded_bank(bank->Some_0, file.banks@[k], bank_data[k]->Ok_0@),
        None => bank is None,
    }
}

/// What loading `file` with the stored bank bytes `bank_data` gives, once its
/// chip and layout are known.
pub open spec fn load_outcome(
    file: ProjectFile,
    bank_data: Seq<Result<Vec<u8>, String>>,
    chip: Chip,
    layout: RomLayout,
    result: Result<LoadedProject, String>,
) -> bool {
    let count = chip.spec_bank_count(layout);
    &&& result is Err <==> exists|k: int|
        0 <= k < file.banks@.len() && #[trigger] entry_fails(file, bank_data, k, count, layout)
    &&& result matches Err(e) ==> exists|k: int|
        0 <= k < file.banks@.len() && #[trigger] entry_fails(file, bank_data, k, count, layout) && (forall|c: int|
            0 <= c < k ==> !entry_fails(file, bank_data, c, count, layout)) && e@ == entry_error(
            file,
            bank_data,
            k,
            layout,
        )
    &&& result matches Ok(loaded) ==> {
        &&& loaded.image.chip == chip
        &&& loaded.image.layout == layout
        &&& loaded.image.pad_byte == file.pad_byte
        &&& loaded.image.banks@.len() == count
        &&& forall|i: int|
            0 <= i < count ==> #[trigger] bank_loaded_from(
                loaded.image.banks@[i],
                file,
                bank_data,
                i,
                file.banks@.len(),
            )
        &&& loaded.settings == ProjectSettings {
            remove_policy: policy_of_id(file.remove_policy@),
            multi_rom_image: file.multi_rom_image,
            allow_larger_chip: file.allow_larger_chip,
            layout_by_size: file.layout_by@ != "platform"@,
        }
    }
}

/// `file` is the record of `image` edited with `settings`: the chip and
/// layout ids, the pad byte, the settings, and one entry per populated bank,
/// in bank order.
pub open spec fn records_project(file: ProjectFile, image: ProjectImage, settings: ProjectSettings) -> bool {
    &&& file.version == PROJECT_VERSION
    &&& file.chip_id@ == image.chip.id@
    &&& file.layout_id@ == image.layout.id@
    &&& file.pad_byte == image.pad_byte
    &&& file.remove_policy@ == policy_id(settings.remove_policy)
    &&& file.multi_rom_image == settings.multi_rom_image
    &&& file.allow_larger_chip == settings.allow_larger_chip
    &&& file.layout_by@ == (if settings.layout_by_size {
        "size"@
    } else {
        "platform"@
    })
    &&& file.banks@.len() == populated_positions(image.banks@).len()
    &&& forall|k: int|
        0 <= k < file.banks@.len() ==> entry_records(
            #[trigger] file.banks@[k],
            populated_positions(image.banks@)[k],
            image.banks@[populated_positions(image.banks@)[k]]->Some_0,
        )
}

/// Error text for a chip id that the catalog lacks.
pub open spec fn unknown_chip_message(id: Seq<char>) -> Seq<char> {
    "Unknown chip '"@ + id + "'"@
}

/// Error text for a layout id that the catalog lacks.
pub open spec fn unknown_layout_message(id: Seq<char>) -> Seq<char> {
    "Unknown layout '"@ + id + "'"@
}

/// Error text for stored bank bytes of the wrong size.
pub open spec fn stored_size_message(index: nat, got: nat, layout: RomLayout) -> Seq<char> {
    "Bank "@ + dec(index) + " is "@ + dec(got) + " bytes but "@ + layout.name@ + " expects "@ + dec(
        layout.unit_size as nat,
    ) + " bytes"@
}

/// Entry `k` cannot be loaded: it names a bank of the image, and its bytes
/// could not be read or have the wrong size.
pub open spec fn entry_fails(
    file: ProjectFile,
    bank_data: Seq<Result<Vec<u8>, String>>,
    k: int,
    count: nat,
    layout: RomLayout,
) -> bool {
    file.banks@[k].index < count && match bank_data[k] {
        Ok(data) => data@.len() != layout.unit_size,
        Err(_) => true,
    }
}

/// The error that entry `k`'s failure is reported with.
pub open spec fn entry_error(file: ProjectFile, bank_data: Seq<Result<Vec<u8>, String>>, k: int, layout: RomLayout) -> Seq<char> {
    match bank_data[k] {
        Ok(data) => stored_size_message(file.banks@[k].index as nat, data@.len(), layout),
        Err(e) => e@,
    }
}

/// The last of the first `n` entries that names bank `i`.
pub open spec fn last_entry_for(entries: Seq<BankEntry>, i: int, n: nat) -> Option<int>
    decreases n,
{
    if n == 0 {
        None
    } else if entries[n - 1].index == i {
        Some(n - 1)
    } else {
        last_entry_for(entries, i, (n - 1) as nat)
    }
}

/// `rom` is the bank that entry `k` describes, with bytes `data`.
pub open spec fn loaded_bank(rom: RomBank, entry: BankEntry, data: Seq<u8>) -> bool {
    &&& rom.data@ == data
    &&& rom.remainder_label == entry.remainder_label
    &&& rom.slots@.len() == entry.slots@.len()
    &&& forall|j: int|
        0 <= j < entry.slots@.len() ==> #[trigger] rom.slots@[j] == (BankSlot {
            label: entry.slots@[j].label,
            source_path: entry.slots@[j].source,
            len: entry.slots@[j].len,
            blank: entry.slots@[j].blank,
        })
}

/// The removal policy's id.
pub fn remove_policy_id(policy: RemovePolicy) -> (id: &'static str)
    ensures
        id@ == policy_id(policy),
{
    match policy {
        RemovePolicy::Blank => "blank",
        RemovePolicy::Compact => "compact",
    }
}

/// The removal policy for an id; anything but `compact` reads as `Blank`.
pub fn remove_policy_from_id(id: &str) -> (policy: RemovePolicy)
    ensures
        policy == policy_of_id(id@),
{
    if str_equal(id, "compact") {
        RemovePolicy::Compact
    } else {
        RemovePolicy::Blank
    }
}

/// The archive path of the bytes of bank `index`.
pub fn bank_binary_name(index: usize) -> (name: String)
    ensures
        name@ == binary_name(index as nat),
{
    let mut name = String::from_str("banks/bank_");
    push_dec_width(&mut name, index, 3);
    name.append(".bin");
    name
}

/// Lower-case form of a string (`str::to_lowercase`).
pub uninterp spec fn lowercase(s: Seq<char>) -> Seq<char>;

/// The lower-case form of `s`, by `str::to_lowercase`.
#[verifier::external_body]
pub(crate) fn to_lowercase(s: &str) -> (lower: String)
    ensures
        lower@ == lowercase(s@),
{
    s.to_lowercase()
}

/// Suggests a project file name from the current chip.
pub fn suggested_name(image: &ProjectImage) -> (name: String)
    ensures
        name@ == lowercase(image.chip.id@) + "_project.romproj"@,
{
    let mut name = to_lowercase(image.chip.id);
    name.append("_project.romproj");
    name
}

/// The record that a project file stores for `image` and `settings`.
pub fn project_file(image: &ProjectImage, settings: &ProjectSettings) -> (file: ProjectFile)
    ensures
        records_project(file, *image, *settings),
{
    let mut banks: Vec<BankEntry> = Vec::new();
    let mut index: usize = 0;
    assert(image.banks@.take(0) =~= Seq::<Option<RomBank>>::empty());
    while index < image.banks.len()
        invariant
            index <= image.banks@.len(),
            banks@.len() == populated_positions(image.banks@.take(index as int)).len(),
            forall|k: int|
                0 <= k < banks@.len() ==> entry_at(
                    #[trigger] banks@[k],
                    populated_positions(image.banks@.take(index as int))[k],
                    image.banks@,
                    index as int,
                ),
        decreases image.banks@.len() - index,
    {
        let ghost prefix = image.banks@.take(index as int);
        let ghost next = image.banks@.take(index + 1);
        assert(next.drop_last() =~= prefix);
        assert(next.last() == image.banks@[index as int]);
        assert(populated_positions(next) == populated_positions(prefix) + if image.banks@[index as int] is Some {
            seq![index as int]
        } else {
            Seq::<int>::empty()
        });
        let ghost old_banks = banks@;
        if let Some(rom) = &image.banks[index] {
            let mut slots: Vec<SlotEntry> = Vec::new();
            let mut j: usize = 0;
            while j < rom.slots.len()
                invariant
                    j <= rom.slots@.len(),
                    slots@.len() == j,
                    forall|i: int|
                        0 <= i < j ==> #[trigger] slots@[i] == (SlotEntry {
                            label: rom.slots@[i].label,
                            len: rom.slots@[i].len,
                            blank: rom.slots@[i].blank,
                            source: rom.slots@[i].source_path,
                        }),
                decreases rom.slots@.len() - j,
            {
                let slot = &rom.slots[j];
                let source = match &slot.source_path {
                    Some(path) => Some(path.clone()),
                    None => None,
                };
                slots.push(SlotEntry { label: slot.label.clone(), len: slot.len, blank: slot.blank, source });
                j += 1;
            }
            let entry = BankEntry {
                index,
                binary: bank_binary_name(index),
                remainder_label: rom.remainder_label.clone(),
                slots,
            };
            assert(entry_records(entry, index as int, *rom));
            banks.push(entry);
        }
        index += 1;
        proof {
            assert(next == image.banks@.take(index as int));
            assert forall|k: int| 0 <= k < banks@.len() implies entry_at(
                #[trigger] banks@[k],
                populated_positions(next)[k],
                image.banks@,
                index as int,
            ) by {
                if k < old_banks.len() {
                    assert(populated_positions(next)[k] == populated_positions(prefix)[k]);
                    assert(banks@[k] == old_banks[k]);
                }
            }
            assert(banks@.len() == populated_positions(image.banks@.take(index as int)).len());
        }
    }
    assert(image.banks@.take(image.banks@.len() as int) =~= image.banks@);
    ProjectFile {
        version: PROJECT_VERSION,
        chip_id: String::from_str(image.chip.id),
        layout_id: String::from_str(image.layout.id),
        pad_byte: image.pad_byte,
        remove_policy: String::from_str(remove_policy_id(settings.remove_policy)),
        multi_rom_image: settings.multi_rom_image,
        allow_larger_chip: settings.allow_larger_chip,
        layout_by: if settings.layout_by_size {
            String::from_str("size")
        } else {
            String::from_str("platform")
        },
        banks,
    }
}

/// Rebuilds a project from its file record and the bytes stored for each
/// bank entry (`bank_data[k]` for `file.banks[k]`, or the error met reading
/// them). Entries naming a bank past the chip's last are skipped.
pub fn project_from_file(file: &ProjectFile, bank_data: &Vec<Result<Vec<u8>, String>>) -> (result: Result<LoadedProject, String>)
    requires
        bank_data@.len() == file.banks@.len(),
    ensures
        find_chip(chip_table(), file.chip_id@) is None ==> (result matches Err(e) && e@ == unknown_chip_message(
            file.chip_id@,
        )),
        find_chip(chip_table(), file.chip_id@) is Some && find_layout(layout_table(), file.layout_id@) is None
            ==> (result matches Err(e) && e@ == unknown_layout_message(file.layout_id@)),
        find_chip(chip_table(), file.chip_id@) is Some && find_layout(layout_table(), file.layout_id@) is Some
            ==> load_outcome(
            *file,
            bank_data@,
            find_chip(chip_table(), file.chip_id@)->Some_0,
            find_layout(layout_table(), file.layout_id@)->Some_0,
            result,
        ),
{
    let chip = match chip_by_id(file.chip_id.as_str()) {
        Some(c) => c,
        None => {
            let mut e = String::from_str("Unknown chip '");
            e.append(file.chip_id.as_str());
            e.append("'");
            return Err(e);
        },
    };
    let layout = match layout_by_id(file.layout_id.as_str()) {
        Some(l) => l,
        None => {
            let mut e = String::from_str("Unknown layout '");
            e.append(file.layout_id.as_str());
            e.append("'");
            return Err(e);
        },
    };
    proof {
        lemma_layout_table_sizes();
        lemma_found_layout_size(layout_table(), file.layout_id@);
    }
    let mut image = ProjectImage::new(chip, layout);
    image.pad_byte = file.pad_byte;
    let count = image.banks.len();
    let ghost entries = file.banks@;
    let mut k: usize = 0;
    while k < file.banks.len()
        invariant
            bank_data@.len() == file.banks@.len(),
            entries == file.banks@,
            find_chip(chip_table(), file.chip_id@) == Some(chip),
            find_layout(layout_table(), file.layout_id@) == Some(layout),
            k <= file.banks@.len(),
            count == chip.spec_bank_count(layout),
            layout.unit_size > 0,
            image.chip == chip,
            image.layout == layout,
            image.pad_byte == file.pad_byte,
            image.banks@.len() == count,
            forall|c: int| 0 <= c < k ==> !entry_fails(*file, bank_data@, c, count as nat, layout),
            forall|i: int|
                0 <= i < count ==> #[trigger] bank_loaded_from(image.banks@[i], *file, bank_data@, i, k as nat),
        decreases file.banks@.len() - k,
    {
        let entry = &file.banks[k];
        let ghost prev = image.banks@;
        if entry.index < count {
            match &bank_data[k] {
                Err(e) => {
                    assert(entry_fails(*file, bank_data@, k as int, count as nat, layout));
                    return Err(e.clone());
                },
                Ok(data) => {
                    if data.len() != layout.unit_size {
                        let mut e = String::from_str("Bank ");
                        push_dec(&mut e, entry.index);
                        e.append(" is ");
                        push_dec(&mut e, data.len());
                        e.append(" bytes but ");
                        e.append(layout.name);
                        e.append(" expects ");
                        push_dec(&mut e, layout.unit_size);
                        e.append(" bytes");
                        assert(entry_fails(*file, bank_data@, k as int, count as nat, layout));
                        return Err(e);
                    }
                    let mut slots: Vec<BankSlot> = Vec::new();
                    let mut j: usize = 0;
                    while j < entry.slots.len()
                        invariant
                            j <= entry.slots@.len(),
                            slots@.len() == j,
                            forall|i: int|
                                0 <= i < j ==> #[trigger] slots@[i] == (BankSlot {
                                    label: entry.slots@[i].label,
                                    source_path: entry.slots@[i].source,
                                    len: entry.slots@[i].len,
                                    blank: entry.slots@[i].blank,
                                }),
                        decreases entry.slots@.len() - j,
                    {
                        let slot = &entry.slots[j];
                        let source = match &slot.source {
                            Some(path) => Some(path.clone()),
                            None => None,
                        };
                        slots.push(
                            BankSlot { label: slot.label.clone(), source_path: source, len: slot.len, blank: slot.blank },
                        );
                        j += 1;
                    }
                    let rom = RomBank {
                        data: vstd::slice::slice_to_vec(data.as_slice()),
                        slots,
                        remainder_label: entry.remainder_label.clone(),
                    };
                    assert(loaded_bank(rom, *entry, data@));
                    image.banks.set(entry.index, Some(rom));
                    proof {
                        assert forall|i: int| 0 <= i < count implies #[trigger] bank_loaded_from(
                            image.banks@[i],
                            *file,
                            bank_data@,
                            i,
                            (k + 1) as nat,
                        ) by {
                            if i != entry.index {
                                assert(image.banks@[i] == prev[i]);
                                assert(bank_loaded_from(prev[i], *file, bank_data@, i, k as nat));
                            }
                        }
                    }
                },
            }
        }
        else {
            proof {
                assert forall|i: int| 0 <= i < count implies #[trigger] bank_loaded_from(
                    image.banks@[i],
                    *file,
                    bank_data@,
                    i,
                    (k + 1) as nat,
                ) by {
                    assert(bank_loaded_from(prev[i], *file, bank_data@, i, k as nat));
                }
            }
        }
        k += 1;
    }
    let settings = ProjectSettings {
        remove_policy: remove_policy_from_id(file.remove_policy.as_str()),
        multi_rom_image: file.multi_rom_image,
        allow_larger_chip: file.allow_larger_chip,
        layout_by_size: !str_equal(file.layout_by.as_str(), "platform"),
    };
    Ok(LoadedProject { image, settings })
}

/// The populated positions are increasing positions of populated banks, and
/// every populated bank is one of them.
pub proof fn lemma_populated_positions(banks: Seq<Option<RomBank>>)
    ensures
        forall|k: int|
            0 <= k < populated_positions(banks).len() ==> 0 <= #[trigger] populated_positions(banks)[k] < banks.len()
                && banks[populated_positions(banks)[k]] is Some,
        forall|k1: int, k2: int|
            0 <= k1 < k2 < populated_positions(banks).len() ==> #[trigger] populated_positions(banks)[k1]
                < #[trigger] populated_positions(banks)[k2],
        forall|i: int|
            0 <= i < banks.len() && #[trigger] banks[i] is Some ==> exists|k: int|
                0 <= k < populated_positions(banks).len() && #[trigger] populated_positions(banks)[k] == i,
    decreases banks.len(),
{
    if banks.len() > 0 {
        let prefix = banks.drop_last();
        lemma_populated_positions(prefix);
        let pp = populated_positions(prefix);
        let p = populated_positions(banks);
        assert forall|k: int| 0 <= k < pp.len() implies p[k] == pp[k] by {}
        assert forall|i: int| 0 <= i < banks.len() && #[trigger] banks[i] is Some implies exists|k: int|
            0 <= k < p.len() && #[trigger] p[k] == i by {
            if i < prefix.len() {
                assert(prefix[i] is Some);
                let k = choose|k: int| 0 <= k < pp.len() && #[trigger] pp[k] == i;
                assert(p[k] == i);
            } else {
                assert(p[pp.len() as int] == i);
            }
        }
    }
}

proof fn lemma_last_entry_unique(entries: Seq<BankEntry>, i: int, n: nat, k0: int)
    requires
        n <= entries.len(),
        0 <= k0 < n,
        entries[k0].index == i,
        forall|k: int| 0 <= k < n && k != k0 ==> #[trigger] entries[k].index != i,
    ensures
        last_entry_for(entries, i, n) == Some(k0),
    decreases n,
{
    if n - 1 != k0 {
        lemma_last_entry_unique(entries, i, (n - 1) as nat, k0);
    }
}

proof fn lemma_last_entry_none(entries: Seq<BankEntry>, i: int, n: nat)
    requires
        n <= entries.len(),
        forall|k: int| 0 <= k < n ==> #[trigger] entries[k].index != i,
    ensures
        last_entry_for(entries, i, n) is None,
    decreases n,
{
    if n > 0 {
        lemma_last_entry_none(entries, i, (n - 1) as nat);
    }
}

/// Saving a project and loading it back restores the image — chip, layout,
/// pad byte, and every bank's bytes, slots and free-space name — and the
/// settings, provided the archive gives back the bytes written for each bank
/// and the chip and layout are the catalog entries of their ids.
pub proof fn lemma_project_round_trip(
    image: ProjectImage,
    settings: ProjectSettings,
    file: ProjectFile,
    bank_data: Seq<Result<Vec<u8>, String>>,
    result: Result<LoadedProject, String>,
)
    requires
        find_chip(chip_table(), image.chip.id@) == Some(image.chip),
        find_layout(layout_table(), image.layout.id@) == Some(image.layout),
        image.layout.unit_size > 0,
        image.banks@.len() == image.spec_bank_count(),
        image.banks_sized(),
        records_project(file, image, settings),
        bank_data.len() == file.banks@.len(),
        forall|k: int|
            0 <= k < bank_data.len() ==> (#[trigger] bank_data[k]) is Ok && bank_data[k]->Ok_0@
                == image.banks@[populated_positions(image.banks@)[k]]->Some_0.data@,
        load_outcome(file, bank_data, image.chip, image.layout, result),
    ensures
        result matches Ok(loaded) && {
            &&& loaded.image.chip == image.chip
            &&& loaded.image.layout == image.layout
            &&& loaded.image.pad_byte == image.pad_byte
            &&& loaded.image.banks@.len() == image.banks@.len()
            &&& forall|i: int|
                0 <= i < image.banks@.len() ==> (#[trigger] loaded.image.banks@[i] is Some <==> image.banks@[i] is Some)
            &&& forall|i: int|
                0 <= i < image.banks@.len() && #[trigger] image.banks@[i] is Some ==> {
                    &&& loaded.image.banks@[i]->Some_0.data@ == image.banks@[i]->Some_0.data@
                    &&& loaded.image.banks@[i]->Some_0.slots@ == image.banks@[i]->Some_0.slots@
                    &&& loaded.image.banks@[i]->Some_0.remainder_label == image.banks@[i]->Some_0.remainder_label
                }
            &&& loaded.settings == settings
        },
{
    reveal_strlit("blank");
    reveal_strlit("compact");
    reveal_strlit("size");
    reveal_strlit("platform");
    let banks = image.banks@;
    let pos = populated_positions(banks);
    let count = image.spec_bank_count();
    lemma_populated_positions(banks);
    assert forall|k: int| 0 <= k < file.banks@.len() implies !#[trigger] entry_fails(
        file,
        bank_data,
        k,
        count,
        image.layout,
    ) by {
        assert(entry_records(file.banks@[k], pos[k], banks[pos[k]]->Some_0));
        assert(bank_data[k] is Ok);
        assert(banks[pos[k]] is Some);
    }
    let loaded = result->Ok_0;
    assert forall|i: int| 0 <= i < banks.len() implies (#[trigger] loaded.image.banks@[i] is Some <==> banks[i] is Some)
        && (banks[i] is Some ==> {
        &&& loaded.image.banks@[i]->Some_0.data@ == banks[i]->Some_0.data@
        &&& loaded.image.banks@[i]->Some_0.slots@ == banks[i]->Some_0.slots@
        &&& loaded.image.banks@[i]->Some_0.remainder_label == banks[i]->Some_0.remainder_label
    }) by {
        assert(bank_loaded_from(loaded.image.banks@[i], file, bank_data, i, file.banks@.len()));
        if banks[i] is Some {
            let k0 = choose|k: int| 0 <= k < pos.len() && #[trigger] pos[k] == i;
            assert(entry_records(file.banks@[k0], pos[k0], banks[pos[k0]]->Some_0));
            assert forall|k: int| 0 <= k < file.banks@.len() && k != k0 implies #[trigger] file.banks@[k].index
                != i by {
                assert(entry_records(file.banks@[k], pos[k], banks[pos[k]]->Some_0));
                if k < k0 {
                    assert(pos[k] < pos[k0]);
                } else {
                    assert(pos[k0] < pos[k]);
                }
            }
            lemma_last_entry_unique(file.banks@, i, file.banks@.len(), k0);
            let rom = banks[i]->Some_0;
            let got = loaded.image.banks@[i]->Some_0;
            assert(got.slots@ =~= rom.slots@);
        } else {
            assert forall|k: int| 0 <= k < file.banks@.len() implies #[trigger] file.banks@[k].index != i by {
                assert(entry_records(file.banks@[k], pos[k], banks[pos[k]]->Some_0));
            }
            lemma_last_entry_none(file.banks@, i, file.banks@.len());
        }
    }
    assert("blank"@ != "compact"@) by {
        assert("blank"@[0] != "compact"@[0]);
    }
    assert("size"@ != "platform"@) by {
        assert("size"@.len() != "platform"@.len());
    }
    assert(policy_of_id(policy_id(settings.remove_policy)) == settings.remove_policy);
    assert(loaded.settings == settings);
}

} // verus!
