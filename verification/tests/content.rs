use aegis::raf::{probe, Aegis128L, Aegis128X2, Algorithm, Raf, RafBuilder, RafIo};
use hf_mount::encryption::content::{
    ciphertext_size, container_chunk_count, decrypt_read, parse_header, plan_read,
    probe_plaintext_size, probed_plaintext_size, staging_offset, staging_raf_size, write_header,
    HeaderError, RafError, ReadIo, ReadIoError, ALG_AEGIS_128X2, CONTAINER_HEADER_LEN,
    HFEB_HEADER_LEN, RAF_CHUNK_RECORD, RAF_CHUNK_SIZE, RAF_HEADER_LEN, RAF_MAGIC,
};
use std::cell::RefCell;
use std::io;
use std::rc::Rc;

/// A container in memory.
#[derive(Clone)]
struct MemIo(Rc<RefCell<Vec<u8>>>);

impl RafIo for MemIo {
    fn read_at(&mut self, buf: &mut [u8], offset: u64) -> io::Result<()> {
        let bytes = self.0.borrow();
        let start = offset as usize;
        if start + buf.len() > bytes.len() {
            return Err(io::Error::new(io::ErrorKind::UnexpectedEof, "past the end"));
        }
        buf.copy_from_slice(&bytes[start..start + buf.len()]);
        Ok(())
    }

    fn write_at(&mut self, buf: &[u8], offset: u64) -> io::Result<()> {
        let mut bytes = self.0.borrow_mut();
        let start = offset as usize;
        if start + buf.len() > bytes.len() {
            bytes.resize(start + buf.len(), 0);
        }
        bytes[start..start + buf.len()].copy_from_slice(buf);
        Ok(())
    }

    fn get_size(&mut self) -> io::Result<u64> {
        Ok(self.0.borrow().len() as u64)
    }

    fn set_size(&mut self, size: u64) -> io::Result<()> {
        self.0.borrow_mut().resize(size as usize, 0);
        Ok(())
    }
}

#[test]
fn algorithm_byte_matches_crate() {
    assert_eq!(ALG_AEGIS_128X2, Aegis128X2::ALG_ID);
}

#[test]
fn header_round_trips() {
    let mut buf = [0u8; HFEB_HEADER_LEN];
    write_header(&mut buf, ALG_AEGIS_128X2);
    assert_eq!(&buf[..4], b"HFEB");
    assert_eq!(parse_header(&buf), Ok(ALG_AEGIS_128X2));
}

#[test]
fn header_rejects_garbage() {
    assert_eq!(parse_header(b"XXXX\x01\x02"), Err(HeaderError::BadMagic));
    assert_eq!(parse_header(b"HFEB\x09\x02"), Err(HeaderError::UnsupportedVersion(9)));
    assert_eq!(parse_header(b"HFEB\x01\x07"), Err(HeaderError::UnknownAlgorithm(7)));
    assert_eq!(parse_header(b"HFEB\x01"), Err(HeaderError::Truncated));
}

#[test]
fn container_chunk_count_validates_sizes() {
    assert_eq!(container_chunk_count(0), None); // smaller than a header
    assert_eq!(container_chunk_count(CONTAINER_HEADER_LEN), Some(0)); // empty file
    assert_eq!(container_chunk_count(CONTAINER_HEADER_LEN + 10), None); // partial slot
    assert_eq!(container_chunk_count(ciphertext_size(1)), Some(1));
    assert_eq!(container_chunk_count(ciphertext_size(200000)), Some(4));
}

#[test]
fn ciphertext_size_is_chunk_quantised() {
    // The final chunk is padded to a full slot, so size only reveals the
    // chunk count: a 1-byte and a full-chunk file are indistinguishable.
    assert_eq!(ciphertext_size(1), ciphertext_size(RAF_CHUNK_SIZE));
    assert_ne!(ciphertext_size(RAF_CHUNK_SIZE), ciphertext_size(RAF_CHUNK_SIZE + 1));
    assert_eq!(ciphertext_size(0), CONTAINER_HEADER_LEN);
}

fn pattern(len: usize) -> Vec<u8> {
    (0..len).map(|i| (i % 251) as u8).collect()
}

fn make_container(plaintext: &[u8], key: &[u8; 16]) -> Vec<u8> {
    let io = MemIo(Rc::new(RefCell::new(Vec::new())));
    {
        let mut raf: Raf<Aegis128X2> =
            RafBuilder::new().truncate(true).create(io.clone(), key).unwrap();
        if !plaintext.is_empty() {
            assert_eq!(raf.write(plaintext, 0).unwrap(), plaintext.len());
        }
        raf.sync().unwrap();
    }
    let bytes = io.0.borrow().clone();
    bytes
}

// Build real AEGIS-RAF files and confirm the size map matches the crate's
// output and that `probe` recovers the exact plaintext size.
#[test]
fn size_map_matches_real_raf() {
    let key = [0u8; 16];
    for &plaintext in &[0u64, 1, 100, 65535, 65536, 65537, 131072, 200000] {
        let container = make_container(&vec![0xABu8; plaintext as usize], &key);
        // The container alone; add the 6-byte HFEB prefix.
        let measured = container.len() as u64;
        assert_eq!(
            measured + HFEB_HEADER_LEN as u64,
            ciphertext_size(plaintext),
            "size formula mismatch at plaintext {plaintext} (measured raf body {measured})"
        );
        // The exact plaintext size is only recoverable from the header.
        let mut io = MemIo(Rc::new(RefCell::new(container)));
        assert_eq!(probe(&mut io).unwrap().file_size, plaintext);
    }
}

// Decrypt `[off, off+len)` exactly as the VFS read path will: plan the fetch,
// serve only the covering slots, decrypt. Returns the bytes and how many
// ciphertext bytes the plan fetched.
fn read_via_plan(container: &[u8], key: &[u8; 16], off: u64, len: usize) -> (Vec<u8>, u64) {
    let object_size = container.len() as u64 + HFEB_HEADER_LEN as u64;
    let plan = plan_read(object_size, off, len as u64).unwrap();
    let hfeb = HFEB_HEADER_LEN as u64;
    let header =
        container[(plan.header_object.start - hfeb) as usize..(plan.header_object.end - hfeb) as usize].to_vec();
    let slots =
        container[(plan.slots_object.start - hfeb) as usize..(plan.slots_object.end - hfeb) as usize].to_vec();
    let fetched = slots.len() as u64;
    let io = ReadIo::new(plan.raf_size, header, plan.slot_base_raf, slots);
    let mut out = vec![0u8; len];
    let n = decrypt_read(key, io, off, &mut out).unwrap();
    out.truncate(n);
    (out, fetched)
}

#[test]
fn reads_whole_file_and_ranges() {
    let key = [7u8; 16];
    let plaintext = pattern(200000); // spans four chunks
    let container = make_container(&plaintext, &key);

    let (all, _) = read_via_plan(&container, &key, 0, plaintext.len());
    assert_eq!(all, plaintext);

    let (mid, _) = read_via_plan(&container, &key, 100, 50);
    assert_eq!(mid, &plaintext[100..150]);

    let (cross, _) = read_via_plan(&container, &key, 65500, 200);
    assert_eq!(cross, &plaintext[65500..65700]);
}

#[test]
fn deep_read_fetches_only_covering_slot() {
    let key = [9u8; 16];
    let plaintext = pattern(200000);
    let container = make_container(&plaintext, &key);
    // A read inside chunk 2 must fetch exactly one slot, not chunks 0..2.
    let (data, fetched) = read_via_plan(&container, &key, 150000, 100);
    assert_eq!(data, &plaintext[150000..150100]);
    assert_eq!(fetched, RAF_CHUNK_RECORD);
}

#[test]
fn reads_at_and_across_eof() {
    let key = [3u8; 16];
    let plaintext = pattern(1000);
    let container = make_container(&plaintext, &key);
    let (past, _) = read_via_plan(&container, &key, 1000, 50);
    assert!(past.is_empty());
    let (tail, _) = read_via_plan(&container, &key, 995, 100);
    assert_eq!(tail, &plaintext[995..1000]);
}

#[test]
fn tampered_chunk_fails_authentication() {
    let key = [1u8; 16];
    let plaintext = pattern(1000);
    let mut container = make_container(&plaintext, &key);
    container[100] ^= 0xff; // a byte inside chunk 0's slot, past the 64-byte header
    let object_size = container.len() as u64 + HFEB_HEADER_LEN as u64;
    let plan = plan_read(object_size, 0, plaintext.len() as u64).unwrap();
    let hfeb = HFEB_HEADER_LEN as u64;
    let header =
        container[(plan.header_object.start - hfeb) as usize..(plan.header_object.end - hfeb) as usize].to_vec();
    let slots =
        container[(plan.slots_object.start - hfeb) as usize..(plan.slots_object.end - hfeb) as usize].to_vec();
    let io = ReadIo::new(plan.raf_size, header, plan.slot_base_raf, slots);
    let mut out = vec![0u8; plaintext.len()];
    assert!(decrypt_read(&key, io, 0, &mut out).is_err());
}

#[test]
fn probe_recovers_plaintext_size_from_header() {
    let key = [5u8; 16];
    for &plaintext in &[0u64, 1, 100, 65536, 65537, 200000] {
        let container = make_container(&vec![0xCD; plaintext as usize], &key);
        let object_size = container.len() as u64 + HFEB_HEADER_LEN as u64;
        // The RAF header is the object's [6, 70) range, i.e. container[0..64].
        let header = &container[..RAF_HEADER_LEN as usize];
        assert_eq!(probe_plaintext_size(header, object_size), Some(plaintext));
    }
}

#[test]
fn sizes_of_containers() {
    assert_eq!(ciphertext_size(0), 70);
    assert_eq!(ciphertext_size(1), 70 + 65568);
    assert_eq!(ciphertext_size(65536), 70 + 65568);
    assert_eq!(ciphertext_size(65537), 70 + 2 * 65568);
    assert_eq!(container_chunk_count(69), None);
    assert_eq!(container_chunk_count(70 + 65567), None);
    assert_eq!(container_chunk_count(70 + 3 * 65568), Some(3));
}

#[test]
fn header_error_messages() {
    assert_eq!(HeaderError::Truncated.to_string(), "encrypted file header is truncated");
    assert_eq!(HeaderError::BadMagic.to_string(), "not an HFEB encrypted file");
    assert_eq!(HeaderError::UnsupportedVersion(9).to_string(), "unsupported HFEB version 9");
    assert_eq!(HeaderError::UnknownAlgorithm(7).to_string(), "unknown HFEB algorithm 7");
}

#[test]
fn plans_of_reads() {
    let object = ciphertext_size(200000);
    let plan = plan_read(object, 150000, 100).unwrap();
    assert_eq!(plan.header_object, 6..70);
    assert_eq!(plan.slots_object, (70 + 2 * 65568)..(70 + 3 * 65568));
    assert_eq!(plan.slot_base_raf, 64 + 2 * 65568);
    assert_eq!(plan.raf_size, object - 6);
    assert_eq!(plan.clone(), plan);
    // Nothing is fetched past the end, nor for an empty read.
    assert!(plan_read(object, 1 << 20, 10).unwrap().slots_object.is_empty());
    assert!(plan_read(object, 0, 0).unwrap().slots_object.is_empty());
    // A read to the end of all offsets is cut off at the end of the file.
    let plan = plan_read(object, 0, u64::MAX).unwrap();
    assert_eq!(plan.slots_object, 70..object);
    assert_eq!(plan_read(object + 1, 0, 1), None);
    assert_eq!(plan_read(5, 0, 1), None);
}

#[test]
fn fetched_ranges_are_served() {
    let io = ReadIo::new(1000, vec![1, 2, 3], 100, vec![7, 8, 9]);
    assert_eq!(io.bytes_at(2, 1), Ok(&[2u8, 3][..]));
    assert_eq!(io.bytes_at(3, 100), Ok(&[7u8, 8, 9][..]));
    assert_eq!(io.bytes_at(0, 2), Ok(&[][..]));
    assert_eq!(io.bytes_at(2, 2), Err(ReadIoError::OutsideFetchedRange));
    assert_eq!(io.bytes_at(1, 103), Err(ReadIoError::OutsideFetchedRange));
    assert_eq!(io.bytes_at(1, 99), Err(ReadIoError::OutsideFetchedRange));
    assert_eq!(io.bytes_at(2, u64::MAX), Err(ReadIoError::OffsetOverflow));
    assert_eq!(ReadIoError::OffsetOverflow.to_string(), "offset overflow");
    assert_eq!(ReadIoError::OffsetOverflow.kind(), io::ErrorKind::InvalidInput);
    assert_eq!(
        ReadIoError::OutsideFetchedRange.to_string(),
        "read outside the fetched ciphertext range"
    );
    assert_eq!(ReadIoError::ReadOnly.to_string(), "ReadIo is read-only");
}

#[test]
fn fetched_ranges_are_storage() {
    let mut io = ReadIo::new(1000, vec![1, 2, 3], 100, vec![7, 8, 9]);
    let mut buf = [0u8; 2];
    io.read_at(&mut buf, 101).unwrap();
    assert_eq!(buf, [8, 9]);
    let e = io.read_at(&mut buf, 50).unwrap_err();
    assert_eq!(e.kind(), io::ErrorKind::UnexpectedEof);
    assert_eq!(e.to_string(), "read outside the fetched ciphertext range");
    assert_eq!(buf, [8, 9]);
    let e = io.read_at(&mut buf, u64::MAX).unwrap_err();
    assert_eq!(e.kind(), io::ErrorKind::InvalidInput);
    assert_eq!(io.get_size().unwrap(), 1000);
    let e = io.write_at(&buf, 0).unwrap_err();
    assert_eq!(e.kind(), io::ErrorKind::Unsupported);
    assert_eq!(e.to_string(), "ReadIo is read-only");
    assert_eq!(io.set_size(5).unwrap_err().kind(), io::ErrorKind::Unsupported);
}

#[test]
fn probed_containers_are_of_one_kind() {
    assert_eq!(probed_plaintext_size(2, 65536, 5), Some(5));
    assert_eq!(probed_plaintext_size(1, 65536, 5), None);
    assert_eq!(probed_plaintext_size(2, 4096, 5), None);
}

/// A header as far as it is probed: the rest of it only authenticates.
fn plain_header(algorithm: u8, chunk_size: u32, size: u64) -> Vec<u8> {
    let mut h = RAF_MAGIC.to_vec();
    h.extend([64, 0, 1, algorithm]);
    h.extend(chunk_size.to_le_bytes());
    h.extend(size.to_le_bytes());
    h.resize(64, 0);
    h
}

#[test]
fn headers_are_probed_field_by_field() {
    let good = plain_header(2, 65536, 0x0102_0304_0506_0708);
    assert_eq!(probe_plaintext_size(&good, 70), Some(0x0102_0304_0506_0708));
    // Neither the size of the object nor what follows the header counts.
    assert_eq!(probe_plaintext_size(&good, 6), Some(0x0102_0304_0506_0708));
    assert_eq!(probe_plaintext_size(&good, 5), None);
    let mut longer = good.clone();
    longer.push(9);
    assert_eq!(probe_plaintext_size(&longer, 70), Some(0x0102_0304_0506_0708));
    assert_eq!(probe_plaintext_size(&good[..63], 70), None);
    // The magic, the header size and the version.
    for i in 0..11 {
        let mut bad = good.clone();
        bad[i] ^= 1;
        assert_eq!(probe_plaintext_size(&bad, 70), None, "byte {i}");
    }
    // The file id and the tag are not looked at.
    for i in 24..64 {
        let mut other = good.clone();
        other[i] ^= 1;
        assert!(probe_plaintext_size(&other, 70).is_some(), "byte {i}");
    }
    for algorithm in [0, 1, 3, 4, 5, 6, 7] {
        assert_eq!(probe_plaintext_size(&plain_header(algorithm, 65536, 1), 70), None);
    }
    for chunk_size in [0, 1008, 1024, 65535, 65552, 1 << 20, (1 << 20) + 16] {
        assert_eq!(probe_plaintext_size(&plain_header(2, chunk_size, 1), 70), None);
    }
}

/// What a header is probed for is what the contract of the probe says of its
/// bytes.
#[test]
fn probed_headers_of_all_kinds() {
    for algorithm in 0..=8u8 {
        for chunk_size in [0u32, 16, 1008, 1023, 1024, 1025, 1040, 65536, 1 << 20, (1 << 20) + 16] {
            let mut io = ReadIo::new(0, plain_header(algorithm, chunk_size, 77), 64, vec![]);
            let accepted = (1..=6).contains(&algorithm)
                && (1024..=1 << 20).contains(&chunk_size)
                && chunk_size % 16 == 0;
            match probe(&mut io) {
                Ok(info) => {
                    assert!(accepted);
                    assert_eq!(info.algorithm as u8, algorithm);
                    assert_eq!(info.chunk_size, chunk_size);
                    assert_eq!(info.file_size, 77);
                }
                Err(_) => assert!(!accepted),
            }
        }
    }
}

#[test]
fn reads_leave_the_rest_of_the_buffer() {
    let key = [3u8; 16];
    let plaintext = pattern(1000);
    let container = make_container(&plaintext, &key);
    let io = ReadIo::new(container.len() as u64, container, 0, vec![]);
    let mut out = vec![0xEE; 20];
    assert_eq!(decrypt_read(&key, io, 990, &mut out).unwrap(), 10);
    assert_eq!(out[..10], plaintext[990..]);
    assert_eq!(out[10..], [0xEE; 10]);
}

#[test]
fn planned_reads_are_whole_reads() {
    let key = [8u8; 16];
    let plaintext = pattern(200000);
    let container = make_container(&plaintext, &key);
    for (off, len) in [(0, 10), (65530, 12), (131072, 65536), (199990, 100), (200000, 5)] {
        let (planned, _) = read_via_plan(&container, &key, off, len);
        let io = ReadIo::new(container.len() as u64, container.clone(), 0, vec![]);
        let mut out = vec![0u8; len];
        let n = decrypt_read(&key, io, off, &mut out).unwrap();
        assert_eq!(planned, out[..n]);
        let end = plaintext.len().min(off as usize + len);
        assert_eq!(planned, plaintext[(off as usize).min(end)..end]);
    }
}

#[test]
fn reads_need_their_chunks_only() {
    let key = [2u8; 16];
    let plaintext = pattern(200000);
    let mut container = make_container(&plaintext, &key);
    container[100] ^= 1; // in the slot of the first chunk
    let read = |off: u64| {
        let io = ReadIo::new(container.len() as u64, container.clone(), 0, vec![]);
        let mut out = vec![0u8; 10];
        decrypt_read(&key, io, off, &mut out).map(|n| out[..n].to_vec())
    };
    assert!(matches!(read(0), Err(RafError::AuthenticationFailed)));
    assert_eq!(read(70000).unwrap(), plaintext[70000..70010]);
    // The slots that hold the bytes have to be there.
    let header = container[..64].to_vec();
    let io = ReadIo::new(container.len() as u64, header, 64, container[64..65632].to_vec());
    let mut out = vec![0u8; 10];
    assert!(matches!(decrypt_read(&key, io, 70000, &mut out), Err(RafError::Io(_))));
}

#[test]
fn containers_that_cannot_be_opened() {
    let key = [4u8; 16];
    let container = make_container(&pattern(1000), &key);
    let size = container.len() as u64;
    let mut out = vec![0u8; 10];
    // Another key, another size in the header, and storage that is too small.
    let io = ReadIo::new(size, container.clone(), 0, vec![]);
    assert!(matches!(decrypt_read(&[5; 16], io, 0, &mut out), Err(RafError::AuthenticationFailed)));
    let mut longer = container.clone();
    longer[16] ^= 1;
    let io = ReadIo::new(size, longer, 0, vec![]);
    assert!(matches!(decrypt_read(&key, io, 0, &mut out), Err(RafError::AuthenticationFailed)));
    let io = ReadIo::new(size - 1, container.clone(), 0, vec![]);
    assert!(matches!(decrypt_read(&key, io, 0, &mut out), Err(RafError::InvalidArgument(_))));
    let io = ReadIo::new(size, vec![], 0, vec![]);
    assert!(matches!(decrypt_read(&key, io, 0, &mut out), Err(RafError::Io(_))));
    // A container of another cipher.
    let other = MemIo(Rc::new(RefCell::new(Vec::new())));
    let raf: Raf<Aegis128L> = RafBuilder::new().truncate(true).create(other.clone(), &key).unwrap();
    drop(raf);
    let bytes = other.0.borrow().clone();
    let io = ReadIo::new(bytes.len() as u64, bytes, 0, vec![]);
    assert!(matches!(decrypt_read(&key, io, 0, &mut out), Err(RafError::InvalidArgument(_))));
    assert_eq!(out, [0; 10]);
}

#[test]
fn staging_files_are_windowed() {
    assert_eq!(staging_offset(0), Some(6));
    assert_eq!(staging_offset(u64::MAX - 6), Some(u64::MAX));
    assert_eq!(staging_offset(u64::MAX), None);
    assert_eq!(staging_raf_size(70), 64);
    assert_eq!(staging_raf_size(3), 0);
}
