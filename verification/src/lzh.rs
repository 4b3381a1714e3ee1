//! LZH archives, read with the `delharc` crate.

use std::io::Read;
use vstd::prelude::*;
use vstd::slice::slice_to_vec;
use vstd::string::*;

verus! {

/// One entry of an archive.
pub struct LzhEntry {
    pub directory: bool,
    /// The compression method is supported.
    pub supported: bool,
    /// The decompressed content, or why it cannot be had.
    pub content: Result<Seq<u8>, Seq<char>>,
    /// Why the content is not the one that was packed, if it is not.
    pub checksum_error: Option<Seq<char>>,
    /// Why the entry after this one cannot be read, if it cannot.
    pub next_error: Option<Seq<char>>,
}

/// `delharc::LhaDecodeReader`, which walks through an archive entry by entry.
#[verifier::external_type_specification]
#[verifier::external_body]
#[verifier::reject_recursive_types(R)]
pub struct ExLhaDecodeReader<R>(delharc::LhaDecodeReader<R>);

/// The entries of an archive, or why there is none, as `delharc::LhaDecodeReader` finds them.
pub uninterp spec fn archive(data: Seq<u8>) -> Result<Seq<LzhEntry>, Seq<char>>;

/// The entries from the one that the reader stands at on.
pub uninterp spec fn entries(reader: delharc::LhaDecodeReader<&[u8]>) -> Seq<LzhEntry>;

/// The reader has read all of the entry that it stands at.
pub uninterp spec fn is_read(reader: delharc::LhaDecodeReader<&[u8]>) -> bool;

/// `delharc::LhaDecodeReader::new`: reads the first header. An archive that can be opened has
/// at least one entry.
#[verifier::external_body]
fn open_archive(data: &[u8]) -> (r: Result<delharc::LhaDecodeReader<&[u8]>, String>)
    ensures
        r is Ok <==> archive(data@) is Ok,
        r is Ok ==> entries(r->Ok_0) == archive(data@)->Ok_0 && entries(r->Ok_0).len() > 0 && !is_read(
            r->Ok_0,
        ),
        r is Err ==> r->Err_0@ == archive(data@)->Err_0,
{
    delharc::LhaDecodeReader::new(data).map_err(|err| err.to_string())
}

/// `delharc::LhaHeader::is_directory` of the current header.
#[verifier::external_body]
fn is_directory(reader: &delharc::LhaDecodeReader<&[u8]>) -> (r: bool)
    requires
        entries(*reader).len() > 0,
    ensures
        r == entries(*reader)[0].directory,
{
    reader.header().is_directory()
}

/// `delharc::LhaDecodeReader::is_decoder_supported`.
#[verifier::external_body]
fn is_supported(reader: &delharc::LhaDecodeReader<&[u8]>) -> (r: bool)
    requires
        entries(*reader).len() > 0,
    ensures
        r == entries(*reader)[0].supported,
{
    reader.is_decoder_supported()
}

/// `std::io::Read::read_to_end` on `delharc::LhaDecodeReader`: the decompressed content of the
/// current entry, of which nothing has been read yet.
#[verifier::external_body]
fn read_content(reader: &mut delharc::LhaDecodeReader<&[u8]>) -> (r: Result<Vec<u8>, String>)
    requires
        entries(*old(reader)).len() > 0,
        !is_read(*old(reader)),
    ensures
        r is Ok <==> entries(*old(reader))[0].content is Ok,
        r is Ok ==> r->Ok_0@ == entries(*old(reader))[0].content->Ok_0 && entries(*final(reader)) == entries(
            *old(reader),
        ) && is_read(*final(reader)),
        r is Err ==> r->Err_0@ == entries(*old(reader))[0].content->Err_0,
{
    let mut out = Vec::new();
    match reader.read_to_end(&mut out) {
        Ok(_) => Ok(out),
        Err(err) => Err(err.to_string()),
    }
}

/// `delharc::LhaDecodeReader::crc_check`, once the content has been read.
#[verifier::external_body]
fn check_content(reader: &delharc::LhaDecodeReader<&[u8]>) -> (r: Result<(), String>)
    requires
        entries(*reader).len() > 0,
        is_read(*reader),
    ensures
        r is Ok <==> entries(*reader)[0].checksum_error is None,
        r is Err ==> r->Err_0@ == entries(*reader)[0].checksum_error->0,
{
    reader.crc_check().map(|_| ()).map_err(|err| err.to_string())
}

/// `delharc::LhaDecodeReader::next_file`: skips the current entry and reads the next header.
#[verifier::external_body]
fn next_entry(reader: &mut delharc::LhaDecodeReader<&[u8]>) -> (r: Result<bool, String>)
    requires
        entries(*old(reader)).len() > 0,
        !is_read(*old(reader)),
    ensures
        r is Err <==> entries(*old(reader))[0].next_error is Some,
        r is Err ==> r->Err_0@ == entries(*old(reader))[0].next_error->0,
        r is Ok ==> r->Ok_0 == (entries(*old(reader)).len() > 1),
        r is Ok && r->Ok_0 ==> entries(*final(reader)) == entries(*old(reader)).skip(1) && !is_read(
            *final(reader),
        ),
{
    reader.next_file().map_err(|err| err.to_string())
}

/// The content of the first entry that is no directory.
pub open spec fn first_file(entries: Seq<LzhEntry>) -> Result<Seq<u8>, Seq<char>>
    decreases entries.len(),
{
    if entries.len() == 0 {
        Err("YM LZH archive has no decodable file entry"@)
    } else if !entries[0].directory {
        if !entries[0].supported {
            Err("YM LZH compression method is not supported"@)
        } else {
            match entries[0].content {
                Err(m) => Err("YM LZH data decode failed: "@ + m),
                Ok(data) => match entries[0].checksum_error {
                    Some(m) => Err("YM LZH CRC check failed: "@ + m),
                    None => Ok(data),
                },
            }
        }
    } else {
        match entries[0].next_error {
            Some(m) => Err("YM LZH next entry failed: "@ + m),
            None => first_file(entries.skip(1)),
        }
    }
}

/// The content of the first file of an archive.
pub open spec fn strict(data: Seq<u8>) -> Result<Seq<u8>, Seq<char>> {
    match archive(data) {
        Err(m) => Err("YM LZH header decode failed: "@ + m),
        Ok(entries) => first_file(entries),
    }
}

/// The views of a result.
pub open spec fn result_of(r: Result<Vec<u8>, String>) -> Result<Seq<u8>, Seq<char>> {
    match r {
        Ok(data) => Ok(data@),
        Err(m) => Err(m@),
    }
}

fn message(prefix: &str, detail: &str) -> (r: String)
    ensures
        r@ == prefix@ + detail@,
{
    let mut s = prefix.to_string();
    s.append(detail);
    s
}

/// The content of the first file of an archive.
pub fn decompress_lzh_strict(data: &[u8]) -> (r: Result<Vec<u8>, String>)
    ensures
        result_of(r) == strict(data@),
{
    let mut reader = match open_archive(data) {
        Ok(reader) => reader,
        Err(m) => return Err(message("YM LZH header decode failed: ", m.as_str())),
    };
    loop
        invariant
            entries(reader).len() > 0,
            !is_read(reader),
            first_file(entries(reader)) == strict(data@),
        decreases entries(reader).len(),
    {
        if !is_directory(&reader) {
            if !is_supported(&reader) {
                return Err("YM LZH compression method is not supported".to_string());
            }
            let out = match read_content(&mut reader) {
                Ok(out) => out,
                Err(m) => return Err(message("YM LZH data decode failed: ", m.as_str())),
            };
            return match check_content(&reader) {
                Ok(_) => Ok(out),
                Err(m) => Err(message("YM LZH CRC check failed: ", m.as_str())),
            };
        }
        let ghost rest = entries(reader).skip(1);
        assert(rest.len() == 0 ==> first_file(rest) == Err::<Seq<u8>, Seq<char>>(
            "YM LZH archive has no decodable file entry"@,
        ));
        match next_entry(&mut reader) {
            Ok(true) => {},
            Ok(false) => return Err("YM LZH archive has no decodable file entry".to_string()),
            Err(m) => return Err(message("YM LZH next entry failed: ", m.as_str())),
        }
    }
}

// ── headers with a wrong checksum ───────────────────────────────────────────

/// The sum of some bytes.
pub open spec fn byte_sum(s: Seq<u8>) -> int
    decreases s.len(),
{
    if s.len() == 0 {
        0
    } else {
        byte_sum(s.drop_last()) + s.last()
    }
}

/// The bytes that the checksum in byte 1 of a level 0 header covers.
pub open spec fn covered(data: Seq<u8>) -> Seq<u8> {
    data.subrange(2, 2 + data[0])
}

/// The file starts with a header of this kind, and holds all of it.
pub open spec fn has_level0_header(data: Seq<u8>) -> bool {
    &&& data.len() >= 22
    &&& data.subrange(2, 5) == seq![0x2Du8, 0x6C, 0x68]
    &&& data[6] == 0x2D
    &&& 2 + data[0] <= data.len()
}

/// The checksum in the header is right.
pub open spec fn checksum_ok(data: Seq<u8>) -> bool {
    data[1] == byte_sum(covered(data)) % 256
}

/// The file with the right checksum in its header.
pub open spec fn repaired(data: Seq<u8>) -> Option<Seq<u8>> {
    if has_level0_header(data) {
        Some(data.update(1, (byte_sum(covered(data)) % 256) as u8))
    } else {
        None
    }
}

/// Puts the right checksum into a level 0 header.
pub fn repair_lzh_level0_header_checksum(data: &[u8]) -> (r: Option<Vec<u8>>)
    ensures
        r is Some <==> repaired(data@) is Some,
        r is Some ==> r->0@ == repaired(data@)->0,
{
    if data.len() < 22 || data[2] != 0x2D || data[3] != 0x6C || data[4] != 0x68 || data[6] != 0x2D {
        assert(!has_level0_header(data@)) by {
            if has_level0_header(data@) {
                let s = data@.subrange(2, 5);
                assert(s[0] == 0x2D && s[1] == 0x6C && s[2] == 0x68);
            }
        }
        return None;
    }
    assert(data@.subrange(2, 5) =~= seq![0x2Du8, 0x6C, 0x68]);
    let end: usize = 2 + data[0] as usize;
    if end > data.len() {
        return None;
    }
    let mut checksum: u8 = 0;
    for i in 2..end
        invariant
            end <= data@.len(),
            end == 2 + data@[0],
            checksum == byte_sum(data@.subrange(2, i as int)) % 256,
    {
        assert(data@.subrange(2, i + 1).drop_last() =~= data@.subrange(2, i as int));
        checksum = checksum.wrapping_add(data[i]);
    }
    let mut out = slice_to_vec(data);
    out[1] = checksum;
    assert(out@ =~= repaired(data@)->0);
    Some(out)
}

/// A repaired header has the right checksum, and repairing it again changes nothing. Only the
/// checksum has changed.
pub proof fn law_repair(data: Seq<u8>)
    requires
        repaired(data) is Some,
    ensures
        ({
            let fixed = repaired(data)->0;
            &&& fixed.len() == data.len()
            &&& forall|i: int| 0 <= i < data.len() && i != 1 ==> #[trigger] fixed[i] == data[i]
            &&& checksum_ok(fixed)
            &&& repaired(fixed) == Some(fixed)
        }),
{
    let fixed = repaired(data)->0;
    assert(covered(fixed) =~= covered(data));
    assert(fixed.subrange(2, 5) =~= data.subrange(2, 5));
    assert(repaired(fixed)->0 =~= fixed);
}

/// A file whose checksum is right is left as it is.
pub proof fn law_repair_keeps_sound_files(data: Seq<u8>)
    requires
        has_level0_header(data),
        checksum_ok(data),
    ensures
        repaired(data) == Some(data),
{
    assert(repaired(data)->0 =~= data);
}

/// What unpacking gives when the first attempt gave `first` and the one on the repaired file,
/// if there is one, gave `retry`.
pub open spec fn combined(
    first: Result<Seq<u8>, Seq<char>>,
    retry: Option<Result<Seq<u8>, Seq<char>>>,
) -> Result<Seq<u8>, Seq<char>> {
    match first {
        Ok(data) => Ok(data),
        Err(m) => match retry {
            None => Err(m),
            Some(Ok(data)) => Ok(data),
            Some(Err(n)) => Err(
                "YM LZH decode failed (strict: "@ + m + "; checksum-repair retry: "@ + n + ")"@,
            ),
        },
    }
}

/// What unpacking gives after a first attempt that failed with `first`.
pub fn after_retry(first: String, retry: Option<Result<Vec<u8>, String>>) -> (r: Result<Vec<u8>, String>)
    ensures
        result_of(r) == combined(
            Err(first@),
            match retry {
                None => None,
                Some(x) => Some(result_of(x)),
            },
        ),
{
    match retry {
        None => Err(first),
        Some(Ok(data)) => Ok(data),
        Some(Err(n)) => {
            let mut s = "YM LZH decode failed (strict: ".to_string();
            s.append(first.as_str());
            s.append("; checksum-repair retry: ");
            s.append(n.as_str());
            s.append(")");
            Err(s)
        },
    }
}

/// What unpacking gives.
pub open spec fn unpacked(data: Seq<u8>) -> Result<Seq<u8>, Seq<char>> {
    combined(
        strict(data),
        match repaired(data) {
            Some(fixed) => Some(strict(fixed)),
            None => None,
        },
    )
}

/// Unpacks the first file of an archive. Where that fails, it is tried once more with the
/// header's checksum put right.
pub fn decompress_lzh(data: &[u8]) -> (r: Result<Vec<u8>, String>)
    ensures
        result_of(r) == unpacked(data@),
{
    match decompress_lzh_strict(data) {
        Ok(out) => Ok(out),
        Err(first) => {
            let retry = match repair_lzh_level0_header_checksum(data) {
                Some(fixed) => Some(decompress_lzh_strict(fixed.as_slice())),
                None => None,
            };
            after_retry(first, retry)
        },
    }
}

/// The bytes look like an archive packed with the `-lh5-` method.
pub open spec fn looks_packed(data: Seq<u8>) -> bool {
    &&& data.len() >= 22
    &&& data[0] != 0
    &&& data.len() >= 22 + data[0]
    &&& data.subrange(2, 7) == seq![0x2Du8, 0x6C, 0x68, 0x35, 0x2D]
}

/// Tests whether the bytes look like an archive packed with the `-lh5-` method.
pub fn is_lzh_compressed(data: &[u8]) -> (r: bool)
    ensures
        r == looks_packed(data@),
{
    if data.len() < 22 {
        return false;
    }
    let header_size: usize = data[0] as usize;
    let marked = data[2] == 0x2D && data[3] == 0x6C && data[4] == 0x68 && data[5] == 0x35 && data[6]
        == 0x2D;
    proof {
        let s = data@.subrange(2, 7);
        if marked {
            assert(s =~= seq![0x2Du8, 0x6C, 0x68, 0x35, 0x2D]);
        } else if s == seq![0x2Du8, 0x6C, 0x68, 0x35, 0x2D] {
            assert(s[0] == data@[2] && s[1] == data@[3] && s[2] == data@[4] && s[3] == data@[5] && s[4]
                == data@[6]);
        }
    }
    header_size != 0 && data.len() - 22 >= header_size && marked
}

/// The first entry of an archive that is no folder is taken: its content as it was packed, if it can
/// be unpacked and its checksum is right, and an error if not. What stands behind it does not matter.
pub proof fn law_first_file_is_taken(entries: Seq<LzhEntry>, i: int)
    requires
        0 <= i < entries.len(),
        forall|j: int| 0 <= j < i ==> (#[trigger] entries[j]).directory && entries[j].next_error is None,
        !entries[i].directory,
    ensures
        first_file(entries) is Ok <==> entries[i].supported && entries[i].content is Ok
            && entries[i].checksum_error is None,
        first_file(entries) is Ok ==> first_file(entries)->Ok_0 == entries[i].content->Ok_0,
    decreases i,
{
    if i > 0 {
        let rest = entries.skip(1);
        assert(entries[0].directory);
        assert forall|j: int| 0 <= j < i - 1 implies (#[trigger] rest[j]).directory && rest[j].next_error
            is None by {
            assert(rest[j] == entries[j + 1]);
        }
        assert(rest[i - 1] == entries[i]);
        law_first_file_is_taken(rest, i - 1);
    }
}

/// An archive of folders only has no file.
pub proof fn law_folders_are_no_files(entries: Seq<LzhEntry>)
    requires
        forall|j: int| 0 <= j < entries.len() ==> (#[trigger] entries[j]).directory,
    ensures
        first_file(entries) is Err,
    decreases entries.len(),
{
    if entries.len() > 0 {
        let rest = entries.skip(1);
        assert(entries[0].directory);
        assert forall|j: int| 0 <= j < rest.len() implies (#[trigger] rest[j]).directory by {
            assert(rest[j] == entries[j + 1]);
        }
        law_folders_are_no_files(rest);
    }
}

/// A file that unpacks as it is, is unpacked so; its checksum is repaired only where it does not.
pub proof fn law_repair_is_the_second_try(data: Seq<u8>)
    ensures
        strict(data) is Ok ==> unpacked(data) == strict(data),
        strict(data) is Err && repaired(data) is None ==> unpacked(data) == strict(data),
        strict(data) is Err && repaired(data) is Some ==> {
            let again = strict(repaired(data)->0);
            &&& unpacked(data) is Ok <==> again is Ok
            &&& again is Ok ==> unpacked(data) == again
        },
{
}

/// A packed file is known by the name of its method behind its first two bytes.
pub proof fn law_packed_files_name_their_method(data: Seq<u8>)
    ensures
        looks_packed(data) <==> data.len() >= 22 && data[0] != 0 && data.len() >= 22 + data[0] && data[2] == 45
            && data[3] == 108 && data[4] == 104 && data[5] == 53 && data[6] == 45,
{
    if data.len() >= 22 {
        let name = data.subrange(2, 7);
        let lh5 = seq![0x2Du8, 0x6C, 0x68, 0x35, 0x2D];
        assert(name[0] == data[2] && name[1] == data[3] && name[2] == data[4] && name[3] == data[5] && name[4]
            == data[6]);
        assert(lh5[0] == 45 && lh5[1] == 108 && lh5[2] == 104 && lh5[3] == 53 && lh5[4] == 45);
        if data[2] == 45 && data[3] == 108 && data[4] == 104 && data[5] == 53 && data[6] == 45 {
            assert(name =~= lh5);
        }
    }
}

/// A result is looked at as it is.
pub proof fn law_results_are_seen_as_they_are(r: Result<Vec<u8>, String>)
    ensures
        r is Ok ==> result_of(r) == Ok::<Seq<u8>, Seq<char>>(r->Ok_0@),
        r is Err ==> result_of(r) == Err::<Seq<u8>, Seq<char>>(r->Err_0@),
{
}

/// A header of level zero is known by the start of its method's name and the dash behind it; the
/// length in its first byte stays within the file. Its checksum is in the second byte: the sum of
/// all bytes behind that which belong to the header.
pub proof fn law_headers_are_repaired_where_they_are(data: Seq<u8>)
    ensures
        repaired(data) is Some <==> data.len() >= 22 && data[2] == 45 && data[3] == 108 && data[4] == 104 && data[6]
            == 45 && 2 + data[0] <= data.len(),
        repaired(data) is Some ==> repaired(data)->0[1] == byte_sum(data.subrange(2, 2 + data[0])) % 256,
{
    if data.len() >= 22 {
        let name = data.subrange(2, 5);
        let lh = seq![0x2Du8, 0x6C, 0x68];
        assert(name[0] == data[2] && name[1] == data[3] && name[2] == data[4]);
        assert(lh[0] == 45 && lh[1] == 108 && lh[2] == 104);
        if data[2] == 45 && data[3] == 108 && data[4] == 104 {
            assert(name =~= lh);
        }
    }
    lemma_sum_not_negative(data.subrange(2, 2 + data[0]));
}

proof fn lemma_sum_not_negative(s: Seq<u8>)
    ensures
        byte_sum(s) >= 0,
    decreases s.len(),
{
    if s.len() > 0 {
        lemma_sum_not_negative(s.drop_last());
    }
}

/// The sum of some bytes grows by each byte that is added.
pub proof fn law_bytes_are_summed_up(s: Seq<u8>, b: u8)
    ensures
        byte_sum(s.push(b)) == byte_sum(s) + b,
        byte_sum(Seq::empty()) == 0,
{
    assert(s.push(b).drop_last() =~= s);
}

} // verus!
