//! Project archives: a zip archive holding each populated bank's bytes under
//! its binary name and the project record text, built and read in memory.
use vstd::prelude::*;
use vstd::utf8::{decode_utf8, encode_utf8, valid_utf8};
use std::io::{Cursor, Read, Write};
use zip::write::FileOptions;
use zip::{ZipArchive, ZipWriter};
use crate::bank::RomBank;
use crate::image::ProjectImage;
use crate::project::{
    bank_binary_name, binary_name, entry_records, lemma_populated_positions, populated_positions, records_project,
    ProjectFile, ProjectSettings,
};
use crate::sidecar::{digits_value, lemma_dec_digits_value, starts_with};
use crate::text::{dec, dec_digits, dec_width, push_dec};

verus! {

#[verifier::external_type_specification]
#[verifier::external_body]
#[verifier::reject_recursive_types(T)]
pub struct ExCursor<T>(Cursor<T>);

#[verifier::external_type_specification]
#[verifier::external_body]
#[verifier::reject_recursive_types(R)]
pub struct ExZipArchive<R>(ZipArchive<R>);

/// A zip archive being written into memory.
#[verifier::external_body]
pub struct ArchiveWriter {
    inner: ZipWriter<Cursor<Vec<u8>>>,
}

/// Why an entry of an archive could not be read.
#[derive(Clone, Debug, PartialEq, Eq)]
pub enum EntryFailure {
    /// The archive has no entry of that name (or could not seek to it).
    Missing(String),
    /// The entry's bytes could not be read back.
    Unreadable(String),
}

/// The entries written so far: each name with its bytes, in order.
pub uninterp spec fn written(w: ArchiveWriter) -> Seq<(Seq<char>, Seq<u8>)>;

/// The archive bytes that finishing a zip writer gives when it holds `entries`.
pub uninterp spec fn zipped(entries: Seq<(Seq<char>, Seq<u8>)>) -> Seq<u8>;

/// Whether every call made on the writer so far succeeded.
pub uninterp spec fn usable(w: ArchiveWriter) -> bool;

/// Entries a zip archive without its large-file extensions holds faithfully:
/// at most 65 535 of them, each name at most 65 535 bytes in UTF-8 (the
/// width of the name-length field, which the writer truncates silently),
/// and each entry at most 1 GiB (well below the 4 GiB that the size fields
/// hold, deflate overhead included).
pub open spec fn archivable(entries: Seq<(Seq<char>, Seq<u8>)>) -> bool {
    &&& entries.len() <= 65535
    &&& forall|k: int| 0 <= k < entries.len() ==> entry_fits(#[trigger] entries[k])
}

/// One entry within the bounds of `archivable`.
pub open spec fn entry_fits(entry: (Seq<char>, Seq<u8>)) -> bool {
    encode_utf8(entry.0).len() <= 65535 && entry.1.len() <= 0x4000_0000
}

/// The last entry is the project record. The reader takes the 20 bytes
/// before the end record for a ZIP64 locator whenever they begin with its
/// signature; without ZIP64 records those bytes end the last entry's central
/// header, so the name and sizes of a last entry can mimic a locator and make
/// the archive unreadable. Under a last entry of twelve bytes, such as
/// `project.json`, they begin with the external attributes that the writer
/// sets for every file, which never match.
pub open spec fn ends_with_record(entries: Seq<(Seq<char>, Seq<u8>)>) -> bool {
    entries.len() > 0 && entries.last().0 == record_name()
}

/// The bytes an opened archive reads from.
pub uninterp spec fn archive_source(a: ZipArchive<Cursor<Vec<u8>>>) -> Seq<u8>;

/// No two entries share a name.
pub open spec fn distinct_entry_names(entries: Seq<(Seq<char>, Seq<u8>)>) -> bool {
    forall|i: int, j: int| 0 <= i < j < entries.len() ==> (#[trigger] entries[i]).0 != (#[trigger] entries[j]).0
}

/// What reading the entry `name` from an archive of `entries` gives: the
/// entry's bytes, or `Missing` when there is no such entry.
pub open spec fn entry_read(entries: Seq<(Seq<char>, Seq<u8>)>, name: Seq<char>, r: Result<Vec<u8>, EntryFailure>) -> bool {
    &&& forall|k: int|
        0 <= k < entries.len() && (#[trigger] entries[k]).0 == name ==> (r matches Ok(d) && d@ == entries[k].1)
    &&& (forall|k: int| 0 <= k < entries.len() ==> (#[trigger] entries[k]).0 != name) ==> r matches Err(
        EntryFailure::Missing(_),
    )
}

/// `ZipWriter::new` over an empty in-memory buffer: no entry written yet.
#[verifier::external_body]
fn new_zip_writer() -> (w: ArchiveWriter)
    ensures
        written(w) == Seq::<(Seq<char>, Seq<u8>)>::empty(),
        usable(w),
{
    ArchiveWriter { inner: ZipWriter::new(Cursor::new(Vec::new())) }
}

/// `ZipWriter::start_file` with the default options (deflated): on success
/// the archive has one more entry, named `name` and empty so far. Writing
/// into memory, it fails only on an entry too large for the size fields, so
/// it succeeds on a writer that has not failed while the entries stay
/// archivable.
#[verifier::external_body]
fn zip_start_file(w: &mut ArchiveWriter, name: &str) -> (r: Result<(), String>)
    ensures
        r is Ok ==> written(*final(w)) == written(*old(w)).push((name@, Seq::<u8>::empty())),
        usable(*old(w)) && archivable(written(*old(w)).push((name@, Seq::<u8>::empty()))) ==> r is Ok && usable(
            *final(w),
        ),
{
    w.inner.start_file(name, FileOptions::default()).map_err(|err| err.to_string())
}

/// `Write::write_all` on a zip writer: on success `data` is appended to the
/// entry being written. Writing into memory, it fails only when no entry
/// was started or the entry grows past what the size fields hold, so it
/// succeeds on a writer that has not failed while the entries stay archivable.
#[verifier::external_body]
fn zip_write_all(w: &mut ArchiveWriter, data: &[u8]) -> (r: Result<(), String>)
    requires
        written(*old(w)).len() > 0,
    ensures
        r is Ok ==> written(*final(w)) == written(*old(w)).drop_last().push(
            (written(*old(w)).last().0, written(*old(w)).last().1 + data@),
        ),
        usable(*old(w)) && archivable(
            written(*old(w)).drop_last().push((written(*old(w)).last().0, written(*old(w)).last().1 + data@)),
        ) ==> r is Ok && usable(*final(w)),
{
    w.inner.write_all(data).map_err(|err| err.to_string())
}

/// `ZipWriter::finish`: on success, the bytes of the archive holding the
/// entries written; it succeeds on a writer that has not failed and holds
/// archivable entries.
#[verifier::external_body]
fn zip_finish(w: ArchiveWriter) -> (r: Result<Vec<u8>, String>)
    ensures
        r matches Ok(bytes) ==> bytes@ == zipped(written(w)),
        usable(w) && archivable(written(w)) ==> r is Ok,
{
    let mut inner = w.inner;
    inner.finish().map(|cursor| cursor.into_inner()).map_err(|err| err.to_string())
}

/// `ZipArchive::new` over in-memory bytes: it reads from those bytes, and
/// an archive that a zip writer finished with archivable entries ending with
/// the project record opens. Of other archives nothing is said: the reader
/// may take the tail of the last entry's header for a ZIP64 locator.
#[verifier::external_body]
fn zip_open(bytes: Vec<u8>) -> (r: Result<ZipArchive<Cursor<Vec<u8>>>, String>)
    ensures
        r matches Ok(a) ==> archive_source(a) == bytes@,
        forall|entries: Seq<(Seq<char>, Seq<u8>)>|
            #[trigger] zipped(entries) == bytes@ && archivable(entries) && ends_with_record(entries) ==> r is Ok,
{
    ZipArchive::new(Cursor::new(bytes)).map_err(|err| err.to_string())
}

/// `ZipArchive::by_name` then `Read::read_to_end`: the bytes of the entry
/// named `name`. In an archive a zip writer finished with archivable entries
/// of different names ending with the project record, that is the bytes
/// written under `name`, and `Missing` when no entry has that name. Of other
/// archives nothing is said.
#[verifier::external_body]
fn zip_read_entry(a: &mut ZipArchive<Cursor<Vec<u8>>>, name: &str) -> (r: Result<Vec<u8>, EntryFailure>)
    ensures
        archive_source(*final(a)) == archive_source(*old(a)),
        forall|entries: Seq<(Seq<char>, Seq<u8>)>|
            #[trigger] zipped(entries) == archive_source(*old(a)) && archivable(entries) && ends_with_record(entries)
                && distinct_entry_names(entries) ==> entry_read(entries, name@, r),
{
    let mut entry = match a.by_name(name) {
        Ok(entry) => entry,
        Err(err) => return Err(EntryFailure::Missing(err.to_string())),
    };
    let mut data = Vec::new();
    match entry.read_to_end(&mut data) {
        Ok(_) => Ok(data),
        Err(err) => Err(EntryFailure::Unreadable(err.to_string())),
    }
}

/// `String::from_utf8`: the text the bytes encode, when they are UTF-8.
#[verifier::external_body]
fn utf8_text(bytes: Vec<u8>) -> (r: Option<String>)
    ensures
        r is Some <==> valid_utf8(bytes@),
        r matches Some(s) ==> s@ == decode_utf8(bytes@),
{
    String::from_utf8(bytes).ok()
}

/// Name of the project record inside a project archive.
pub open spec fn record_name() -> Seq<char> {
    "project.json"@
}

/// The entries of a project archive: each populated bank's bytes under its
/// binary name, in bank order, then the record text, UTF-8 encoded.
pub open spec fn project_entries(banks: Seq<Option<RomBank>>, record_text: Seq<char>) -> Seq<(Seq<char>, Seq<u8>)> {
    populated_positions(banks).map_values(|p: int| (binary_name(p as nat), banks[p]->Some_0.data@)) + seq![
        (record_name(), encode_utf8(record_text)),
    ]
}

/// A project archive of `banks` and `record_text` stays archivable: fewer
/// than 65 535 populated banks, and each bank and the UTF-8 record at most 1 GiB.
pub open spec fn project_fits(banks: Seq<Option<RomBank>>, record_text: Seq<char>) -> bool {
    &&& populated_positions(banks).len() < 65535
    &&& forall|p: int|
        0 <= p < banks.len() && #[trigger] banks[p] is Some ==> banks[p]->Some_0.data@.len() <= 0x4000_0000
    &&& encode_utf8(record_text).len() <= 0x4000_0000
}

/// 10 to the power `k`.
spec fn pow10(k: nat) -> nat
    decreases k,
{
    if k == 0 {
        1
    } else {
        10 * pow10((k - 1) as nat)
    }
}

/// A number below `10^k` has at most `k` decimal digits.
proof fn lemma_dec_digits_len(n: nat, k: nat)
    requires
        k >= 1,
        n < pow10(k),
    ensures
        dec_digits(n).len() <= k,
    decreases n,
{
    if n >= 10 {
        let k1 = (k - 1) as nat;
        if k == 1 {
            assert(pow10(1) == 10);
        }
        assert(n / 10 < pow10(k1)) by (nonlinear_arith)
            requires
                n < 10 * pow10(k1),
        ;
        assert(k1 >= 1);
        lemma_dec_digits_len(n / 10, k1);
    }
}

/// UTF-8 takes at most four bytes a character.
proof fn lemma_utf8_len(s: Seq<char>)
    ensures
        encode_utf8(s).len() <= 4 * s.len(),
    decreases s.len(),
{
    if s.len() > 0 {
        lemma_utf8_len(s.drop_first());
    }
}

/// The binary name of any bank is short enough for an archive entry.
pub proof fn lemma_binary_name_fits(p: nat)
    requires
        p <= usize::MAX,
    ensures
        encode_utf8(binary_name(p)).len() <= 65535,
{
    assert(pow10(20) == 100000000000000000000) by {
        reveal_with_fuel(pow10, 21);
    }
    lemma_dec_digits_len(p, 20);
    reveal_strlit("banks/bank_");
    reveal_strlit(".bin");
    assert(dec_width(p, 3).len() <= 20 || dec_width(p, 3).len() == 3);
    lemma_utf8_len(binary_name(p));
}

/// The record's name is short enough for an archive entry.
pub proof fn lemma_record_name_fits()
    ensures
        encode_utf8(record_name()).len() <= 65535,
{
    reveal_strlit("project.json");
    lemma_utf8_len(record_name());
}

/// A prefix of the banks has no more populated banks than the whole.
proof fn lemma_positions_count_grows(banks: Seq<Option<RomBank>>, b: int)
    requires
        0 <= b <= banks.len(),
    ensures
        populated_positions(banks.take(b)).len() <= populated_positions(banks).len(),
    decreases banks.len() - b,
{
    if b == banks.len() {
        assert(banks.take(b) =~= banks);
    } else {
        assert(banks.take(b + 1).drop_last() =~= banks.take(b));
        lemma_positions_count_grows(banks, b + 1);
    }
}

/// The entries of a project archive that fits are archivable.
pub proof fn lemma_project_entries_archivable(banks: Seq<Option<RomBank>>, record_text: Seq<char>)
    requires
        banks.len() <= usize::MAX,
        project_fits(banks, record_text),
    ensures
        archivable(project_entries(banks, record_text)),
{
    let entries = project_entries(banks, record_text);
    let pp = populated_positions(banks);
    lemma_populated_positions(banks);
    lemma_record_name_fits();
    assert forall|k: int| 0 <= k < entries.len() implies entry_fits(#[trigger] entries[k]) by {
        if k < pp.len() {
            assert(entries[k] == (binary_name(pp[k] as nat), banks[pp[k]]->Some_0.data@));
            lemma_binary_name_fits(pp[k] as nat);
        } else {
            assert(entries[k] == (record_name(), encode_utf8(record_text)));
        }
    }
}

/// Error text for a bank that could not be written to an archive.
pub open spec fn bank_write_prefix(index: nat) -> Seq<char> {
    "Could not write bank "@ + dec(index) + ": "@
}

/// What a failed save reports: which bank or part of the archive failed.
pub open spec fn save_failure(e: Seq<char>, banks: Seq<Option<RomBank>>, archive_name: Seq<char>) -> bool {
    ||| exists|i: int| 0 <= i < banks.len() && #[trigger] banks[i] is Some && starts_with(e, bank_write_prefix(i as nat))
    ||| starts_with(e, "Could not write project metadata: "@)
    ||| starts_with(e, "Could not finalize "@ + archive_name + ": "@)
}

/// The bytes of the project archive of `image` with the record text
/// `record_text`: each populated bank's bytes under its binary name, in bank
/// order, then the record as `project.json`.
pub fn project_archive(image: &ProjectImage, record_text: &str, archive_name: &str) -> (result: Result<Vec<u8>, String>)
    ensures
        result matches Ok(bytes) ==> bytes@ == zipped(project_entries(image.banks@, record_text@)),
        result matches Err(e) ==> save_failure(e@, image.banks@, archive_name@),
        project_fits(image.banks@, record_text@) ==> result is Ok,
{
    let ghost banks = image.banks@;
    let ghost fits = project_fits(banks, record_text@);
    let bank_count = image.banks.len();
    let ghost view_of = |p: int| (binary_name(p as nat), banks[p]->Some_0.data@);
    let mut w = new_zip_writer();
    let mut b: usize = 0;
    assert(banks.take(0) =~= Seq::<Option<RomBank>>::empty());
    while b < image.banks.len()
        invariant
            banks == image.banks@,
            view_of == (|p: int| (binary_name(p as nat), banks[p]->Some_0.data@)),
            b <= banks.len(),
            bank_count == banks.len(),
            fits == project_fits(banks, record_text@),
            fits ==> usable(w) && archivable(written(w)),
            written(w) == populated_positions(banks.take(b as int)).map_values(view_of),
            forall|k: int|
                0 <= k < populated_positions(banks.take(b as int)).len() ==> #[trigger] populated_positions(
                    banks.take(b as int),
                )[k] < b,
        decreases banks.len() - b,
    {
        let ghost before = populated_positions(banks.take(b as int));
        assert(banks.take(b + 1).drop_last() =~= banks.take(b as int));
        let ghost w0 = written(w);
        if let Some(rom) = &image.banks[b] {
            let name = bank_binary_name(b);
            proof {
                assert(populated_positions(banks.take(b + 1)) == before.push(b as int));
                lemma_positions_count_grows(banks, b + 1);
                lemma_binary_name_fits(b as nat);
                if fits {
                    assert(banks[b as int] is Some);
                    let x = w0.push((name@, Seq::<u8>::empty()));
                    assert forall|k: int| 0 <= k < x.len() implies entry_fits(#[trigger] x[k]) by {
                        if k < w0.len() {
                            assert(x[k] == w0[k]);
                        }
                    }
                    let y = w0.push((name@, Seq::<u8>::empty() + rom.data@));
                    assert forall|k: int| 0 <= k < y.len() implies entry_fits(#[trigger] y[k]) by {
                        if k < w0.len() {
                            assert(y[k] == w0[k]);
                        }
                    }
                    assert(archivable(y));
                    assert(y == x.drop_last().push((x.last().0, x.last().1 + rom.data@)));
                }
            }
            match zip_start_file(&mut w, name.as_str()) {
                Ok(()) => {},
                Err(err) => {
                    let mut e = String::from_str("Could not write bank ");
                    push_dec(&mut e, b);
                    e.append(": ");
                    e.append(err.as_str());
                    assert(starts_with(e@, bank_write_prefix(b as nat))) by {
                        assert(e@.take(bank_write_prefix(b as nat).len() as int) =~= bank_write_prefix(b as nat));
                    }
                    assert(banks[b as int] is Some);
                    return Err(e);
                },
            }
            match zip_write_all(&mut w, rom.data.as_slice()) {
                Ok(()) => {},
                Err(err) => {
                    let mut e = String::from_str("Could not write bank ");
                    push_dec(&mut e, b);
                    e.append(": ");
                    e.append(err.as_str());
                    assert(starts_with(e@, bank_write_prefix(b as nat))) by {
                        assert(e@.take(bank_write_prefix(b as nat).len() as int) =~= bank_write_prefix(b as nat));
                    }
                    assert(banks[b as int] is Some);
                    return Err(e);
                },
            }
            proof {
                assert(populated_positions(banks.take(b + 1)) == before.push(b as int));
                assert(Seq::<u8>::empty() + rom.data@ =~= rom.data@);
                assert(rom.data@ == banks[b as int]->Some_0.data@);
                assert(view_of(b as int) == (name@, rom.data@));
                assert(written(w) =~= w0.push(view_of(b as int)));
                assert(before.push(b as int).map_values(view_of) =~= before.map_values(view_of).push(
                    view_of(b as int),
                ));
            }
        } else {
            assert(populated_positions(banks.take(b + 1)) == before);
        }
        b += 1;
    }
    assert(banks.take(b as int) =~= banks);
    let record = "project.json";
    proof {
        reveal_strlit("project.json");
        lemma_record_name_fits();
        if fits {
            let w1 = written(w);
            let x = w1.push((record@, Seq::<u8>::empty()));
            assert forall|k: int| 0 <= k < x.len() implies entry_fits(#[trigger] x[k]) by {
                if k < w1.len() {
                    assert(x[k] == w1[k]);
                }
            }
            let y = w1.push((record@, Seq::<u8>::empty() + encode_utf8(record_text@)));
            assert forall|k: int| 0 <= k < y.len() implies entry_fits(#[trigger] y[k]) by {
                if k < w1.len() {
                    assert(y[k] == w1[k]);
                }
            }
            assert(archivable(y));
            assert(y == x.drop_last().push((x.last().0, x.last().1 + encode_utf8(record_text@))));
        }
    }
    match zip_start_file(&mut w, record) {
        Ok(()) => {},
        Err(err) => {
            let mut e = String::from_str("Could not write project metadata: ");
            e.append(err.as_str());
            assert(e@.take("Could not write project metadata: "@.len() as int) =~= "Could not write project metadata: "@);
            return Err(e);
        },
    }
    let text_bytes = record_text.as_bytes();
    match zip_write_all(&mut w, text_bytes) {
        Ok(()) => {},
        Err(err) => {
            let mut e = String::from_str("Could not write project metadata: ");
            e.append(err.as_str());
            assert(e@.take("Could not write project metadata: "@.len() as int) =~= "Could not write project metadata: "@);
            return Err(e);
        },
    }
    assert(Seq::<u8>::empty() + encode_utf8(record_text@) =~= encode_utf8(record_text@));
    assert(written(w) =~= project_entries(banks, record_text@));
    match zip_finish(w) {
        Ok(bytes) => Ok(bytes),
        Err(err) => {
            let mut e = String::from_str("Could not finalize ");
            e.append(archive_name);
            e.append(": ");
            e.append(err.as_str());
            assert(e@.take(("Could not finalize "@ + archive_name@ + ": "@).len() as int) =~= "Could not finalize "@
                + archive_name@ + ": "@);
            Err(e)
        },
    }
}

/// What a failed opening reports: an unreadable archive or record.
pub open spec fn open_failure(e: Seq<char>, archive_name: Seq<char>) -> bool {
    ||| starts_with(e, archive_name + " is not a valid project: "@)
    ||| starts_with(e, "Missing project metadata: "@)
    ||| starts_with(e, "Could not read project metadata: "@)
}

/// What opening the project archive `bytes` gives: the archive and the
/// record text. For an archive a zip writer finished with archivable entries
/// of different names ending with `project.json`, the text is the decoded
/// `project.json` entry, and the opening succeeds whenever that entry is
/// valid UTF-8.
pub open spec fn opened_archive(
    bytes: Seq<u8>,
    archive_name: Seq<char>,
    result: Result<(ZipArchive<Cursor<Vec<u8>>>, String), String>,
) -> bool {
    &&& result matches Ok((a, text)) ==> {
        &&& archive_source(a) == bytes
        &&& forall|entries: Seq<(Seq<char>, Seq<u8>)>, k: int|
            #![trigger zipped(entries), entries[k]]
            zipped(entries) == bytes && archivable(entries) && ends_with_record(entries) && distinct_entry_names(entries) && 0 <= k < entries.len() && entries[k].0
                == record_name() ==> text@ == decode_utf8(entries[k].1)
    }
    &&& forall|entries: Seq<(Seq<char>, Seq<u8>)>, k: int|
        #![trigger zipped(entries), entries[k]]
        zipped(entries) == bytes && archivable(entries) && ends_with_record(entries) && distinct_entry_names(entries) && 0 <= k < entries.len() && entries[k].0
            == record_name() && valid_utf8(entries[k].1) ==> result is Ok
    &&& result matches Err(e) ==> open_failure(e@, archive_name)
}

/// Opens a project archive held in memory and reads its record text.
pub fn open_project_archive(bytes: Vec<u8>, archive_name: &str) -> (result: Result<(ZipArchive<Cursor<Vec<u8>>>, String), String>)
    ensures
        opened_archive(bytes@, archive_name@, result),
{
    let ghost source = bytes@;
    let mut archive = match zip_open(bytes) {
        Ok(a) => a,
        Err(err) => {
            let mut e = String::from_str(archive_name);
            e.append(" is not a valid project: ");
            e.append(err.as_str());
            assert(e@.take((archive_name@ + " is not a valid project: "@).len() as int) =~= archive_name@
                + " is not a valid project: "@);
            return Err(e);
        },
    };
    let record = "project.json";
    proof {
        reveal_strlit("project.json");
    }
    let data = match zip_read_entry(&mut archive, record) {
        Ok(data) => data,
        Err(EntryFailure::Missing(err)) => {
            let mut e = String::from_str("Missing project metadata: ");
            e.append(err.as_str());
            assert(e@.take("Missing project metadata: "@.len() as int) =~= "Missing project metadata: "@);
            return Err(e);
        },
        Err(EntryFailure::Unreadable(err)) => {
            let mut e = String::from_str("Could not read project metadata: ");
            e.append(err.as_str());
            assert(e@.take("Could not read project metadata: "@.len() as int) =~= "Could not read project metadata: "@);
            return Err(e);
        },
    };
    let ghost read = data@;
    proof {
        assert forall|entries: Seq<(Seq<char>, Seq<u8>)>, k: int|
            #![trigger zipped(entries), entries[k]]
            zipped(entries) == source && archivable(entries) && ends_with_record(entries) && distinct_entry_names(entries) && 0 <= k < entries.len() && entries[k].0
                == record_name() implies read == entries[k].1 by {
            assert(entry_read(entries, record@, Ok(data)));
        }
    }
    match utf8_text(data) {
        Some(text) => Ok((archive, text)),
        None => {
            let mut e = String::from_str("Could not read project metadata: ");
            e.append("stream did not contain valid UTF-8");
            assert(e@.take("Could not read project metadata: "@.len() as int) =~= "Could not read project metadata: "@);
            Err(e)
        },
    }
}

/// What a failed bank read reports.
pub open spec fn bank_read_failure(e: Seq<char>, binary: Seq<char>) -> bool {
    ||| starts_with(e, "Missing bank data "@ + binary + ": "@)
    ||| starts_with(e, "Could not read bank data "@ + binary + ": "@)
}

/// What reading the bank binaries that `record` lists from the archive
/// bytes `source` gives, one result per entry of the record. For an archive
/// a zip writer finished with archivable entries of different names ending
/// with the project record, an entry's bytes when the archive holds its
/// binary, an error when it does not.
pub open spec fn banks_read(source: Seq<u8>, record: ProjectFile, data: Seq<Result<Vec<u8>, String>>) -> bool {
    &&& data.len() == record.banks@.len()
    &&& forall|k: int|
        0 <= k < data.len() ==> (#[trigger] data[k] matches Err(e) ==> bank_read_failure(
            e@,
            record.banks@[k].binary@,
        ))
    &&& forall|entries: Seq<(Seq<char>, Seq<u8>)>, k: int, j: int|
        #![trigger zipped(entries), data[k], entries[j]]
        zipped(entries) == source && archivable(entries) && ends_with_record(entries) && distinct_entry_names(entries) && 0 <= k < data.len() && 0 <= j < entries.len()
            && entries[j].0 == record.banks@[k].binary@ ==> (data[k] matches Ok(d) && d@ == entries[j].1)
    &&& forall|entries: Seq<(Seq<char>, Seq<u8>)>, k: int|
        #![trigger zipped(entries), data[k]]
        zipped(entries) == source && archivable(entries) && ends_with_record(entries) && distinct_entry_names(entries) && 0 <= k < data.len() && (forall|j: int|
            0 <= j < entries.len() ==> (#[trigger] entries[j]).0 != record.banks@[k].binary@) ==> data[k] is Err
}

/// Reads from the archive the bank binary of every entry of `record`, in order.
pub fn read_bank_data(archive: &mut ZipArchive<Cursor<Vec<u8>>>, record: &ProjectFile) -> (data: Vec<Result<Vec<u8>, String>>)
    ensures
        archive_source(*final(archive)) == archive_source(*old(archive)),
        banks_read(archive_source(*old(archive)), *record, data@),
{
    let ghost source = archive_source(*archive);
    let mut data: Vec<Result<Vec<u8>, String>> = Vec::new();
    let mut k: usize = 0;
    while k < record.banks.len()
        invariant
            archive_source(*archive) == source,
            k <= record.banks@.len(),
            data@.len() == k,
            forall|i: int|
                0 <= i < k ==> (#[trigger] data@[i] matches Err(e) ==> bank_read_failure(e@, record.banks@[i].binary@)),
            forall|entries: Seq<(Seq<char>, Seq<u8>)>, i: int, j: int|
                #![trigger zipped(entries), data@[i], entries[j]]
                zipped(entries) == source && archivable(entries) && ends_with_record(entries) && distinct_entry_names(entries) && 0 <= i < k && 0 <= j < entries.len()
                    && entries[j].0 == record.banks@[i].binary@ ==> (data@[i] matches Ok(d) && d@ == entries[j].1),
            forall|entries: Seq<(Seq<char>, Seq<u8>)>, i: int|
                #![trigger zipped(entries), data@[i]]
                zipped(entries) == source && archivable(entries) && ends_with_record(entries) && distinct_entry_names(entries) && 0 <= i < k && (forall|j: int|
                    0 <= j < entries.len() ==> (#[trigger] entries[j]).0 != record.banks@[i].binary@) ==> data@[i] is Err,
        decreases record.banks@.len() - k,
    {
        let binary = record.banks[k].binary.as_str();
        let read = match zip_read_entry(archive, binary) {
            Ok(bytes) => Ok(bytes),
            Err(EntryFailure::Missing(err)) => {
                let mut e = String::from_str("Missing bank data ");
                e.append(binary);
                e.append(": ");
                e.append(err.as_str());
                assert(e@.take(("Missing bank data "@ + binary@ + ": "@).len() as int) =~= "Missing bank data "@ + binary@
                    + ": "@);
                Err(e)
            },
            Err(EntryFailure::Unreadable(err)) => {
                let mut e = String::from_str("Could not read bank data ");
                e.append(binary);
                e.append(": ");
                e.append(err.as_str());
                assert(e@.take(("Could not read bank data "@ + binary@ + ": "@).len() as int)
                    =~= "Could not read bank data "@ + binary@ + ": "@);
                Err(e)
            },
        };
        data.push(read);
        k += 1;
    }
    data
}

/// Characters that are all `'0'` have the value 0.
proof fn lemma_zeros_value(z: Seq<char>)
    requires
        forall|k: int| 0 <= k < z.len() ==> z[k] == '0',
    ensures
        digits_value(z) == 0,
    decreases z.len(),
{
    if z.len() > 0 {
        lemma_zeros_value(z.drop_last());
    }
}

/// Leading zeros do not change the value of a run of digits.
proof fn lemma_leading_zeros(z: Seq<char>, s: Seq<char>)
    requires
        forall|k: int| 0 <= k < z.len() ==> z[k] == '0',
    ensures
        digits_value(z + s) == digits_value(s),
    decreases s.len(),
{
    if s.len() == 0 {
        assert(z + s =~= z);
        lemma_zeros_value(z);
    } else {
        lemma_leading_zeros(z, s.drop_last());
        assert((z + s).drop_last() =~= z + s.drop_last());
    }
}

/// A zero-padded decimal rendering has the value rendered.
proof fn lemma_dec_width_value(n: nat, w: nat)
    ensures
        digits_value(dec_width(n, w)) == n,
{
    lemma_dec_digits_value(n);
    let d = dec_digits(n);
    if d.len() < w {
        let z = Seq::new((w - d.len()) as nat, |i: int| '0');
        lemma_leading_zeros(z, d);
    }
}

/// Banks at different positions are stored under different binary names.
pub proof fn lemma_binary_names_differ(m: nat, n: nat)
    requires
        m != n,
    ensures
        binary_name(m) != binary_name(n),
{
    reveal_strlit("banks/bank_");
    reveal_strlit(".bin");
    if binary_name(m) == binary_name(n) {
        let a = binary_name(m);
        let x = dec_width(m, 3);
        let y = dec_width(n, 3);
        assert(a.subrange(11, a.len() - 4) =~= x);
        assert(binary_name(n).subrange(11, binary_name(n).len() - 4) =~= y);
        lemma_dec_width_value(m, 3);
        lemma_dec_width_value(n, 3);
    }
}

/// The entries of a project archive have different names.
pub proof fn lemma_project_entries_distinct(banks: Seq<Option<RomBank>>, record_text: Seq<char>)
    ensures
        distinct_entry_names(project_entries(banks, record_text)),
{
    let entries = project_entries(banks, record_text);
    let pp = populated_positions(banks);
    lemma_populated_positions(banks);
    reveal_strlit("banks/bank_");
    reveal_strlit("project.json");
    assert forall|i: int, j: int| 0 <= i < j < entries.len() implies (#[trigger] entries[i]).0 != (
    #[trigger] entries[j]).0 by {
        assert(entries[i].0 == binary_name(pp[i] as nat));
        if j < pp.len() {
            assert(entries[j].0 == binary_name(pp[j] as nat));
            assert(pp[i] < pp[j]);
            lemma_binary_names_differ(pp[i] as nat, pp[j] as nat);
        } else {
            assert(entries[j].0 == record_name());
            assert(binary_name(pp[i] as nat)[0] == 'b');
            assert(record_name()[0] == 'p');
        }
    }
}

/// A saved project archive reads back: opening it gives the record text
/// that was saved, and reading the banks that the image's record lists
/// gives, for each of them, the bytes saved for that bank (for a project
/// that fits an archive, which `project_archive` then always writes).
pub proof fn lemma_project_archive_round_trip(
    image: ProjectImage,
    settings: ProjectSettings,
    file: ProjectFile,
    record_text: Seq<char>,
    archive_name: Seq<char>,
    opened: Result<(ZipArchive<Cursor<Vec<u8>>>, String), String>,
    data: Seq<Result<Vec<u8>, String>>,
)
    requires
        image.banks@.len() <= usize::MAX,
        project_fits(image.banks@, record_text),
        records_project(file, image, settings),
        opened_archive(zipped(project_entries(image.banks@, record_text)), archive_name, opened),
        opened matches Ok((a, _)) ==> banks_read(archive_source(a), file, data),
    ensures
        opened matches Ok((a, text)) && text@ == record_text,
        data.len() == file.banks@.len(),
        forall|k: int|
            0 <= k < data.len() ==> (#[trigger] data[k]) is Ok && data[k]->Ok_0@ == image.banks@[populated_positions(
                image.banks@,
            )[k]]->Some_0.data@,
{
    let banks = image.banks@;
    let entries = project_entries(banks, record_text);
    let pp = populated_positions(banks);
    lemma_project_entries_distinct(banks, record_text);
    lemma_project_entries_archivable(banks, record_text);
    let last = pp.len() as int;
    assert(entries[last] == (record_name(), encode_utf8(record_text)));
    assert(ends_with_record(entries));
    vstd::utf8::encode_utf8_valid_utf8(record_text);
    vstd::utf8::encode_utf8_decode_utf8(record_text);
    assert(opened is Ok);
    let a = opened->Ok_0.0;
    assert forall|k: int| 0 <= k < data.len() implies (#[trigger] data[k]) is Ok && data[k]->Ok_0@
        == banks[pp[k]]->Some_0.data@ by {
        assert(entry_records(file.banks@[k], pp[k], banks[pp[k]]->Some_0));
        assert(entries[k] == (binary_name(pp[k] as nat), banks[pp[k]]->Some_0.data@));
        assert(entries[k].0 == file.banks@[k].binary@);
    }
}

} // verus!
