//! The wire format of the messages: integers little-endian at fixed width,
//! addresses as 64-bit words, a path as the count of its UTF-8 bytes and the
//! bytes, a list as the count of its items and the items.

use crate::types::{
    object_views, replaced_views, BreakpointInst, ObjectInfo, ObjectInfoView, PHdr,
    SetBreakpointsReq, SetBreakpointsResp,
};
use vstd::bytes::{
    lemma_auto_spec_u32_to_from_le_bytes, lemma_auto_spec_u64_to_from_le_bytes,
    spec_u32_from_le_bytes, spec_u32_to_le_bytes, spec_u64_from_le_bytes, spec_u64_to_le_bytes,
    u32_from_le_bytes, u32_to_le_bytes, u64_from_le_bytes, u64_to_le_bytes,
};
use vstd::prelude::*;
use vstd::slice::{slice_subrange, slice_to_vec};
use vstd::utf8::{decode_utf8, encode_utf8, valid_utf8};

verus! {

/// Why bytes could not be read as a message.
#[derive(Debug, Clone, Copy, PartialEq, Eq, Structural)]
pub enum WireError {
    /// The bytes end before the message does.
    Truncated,
    /// The bytes of a path are not UTF-8.
    BadPath,
    /// An address or a count does not fit the machine word.
    TooLarge,
}

/// The encoding of a 32-bit integer.
pub open spec fn enc_u32(x: u32) -> Seq<u8> {
    spec_u32_to_le_bytes(x)
}

/// The encoding of a 64-bit integer.
pub open spec fn enc_u64(x: u64) -> Seq<u8> {
    spec_u64_to_le_bytes(x)
}

/// The encoding of an address or a size: as a 64-bit integer.
pub open spec fn enc_word(x: usize) -> Seq<u8> {
    enc_u64(x as u64)
}

/// The encoding of a path: the count of its UTF-8 bytes, then the bytes.
pub open spec fn enc_path(path: Seq<char>) -> Seq<u8> {
    enc_u64(encode_utf8(path).len() as u64) + encode_utf8(path)
}

/// The encodings of the items, one after the other.
pub open spec fn enc_items<T>(enc: spec_fn(T) -> Seq<u8>, items: Seq<T>) -> Seq<u8>
    decreases items.len(),
{
    if items.len() == 0 {
        Seq::empty()
    } else {
        enc(items[0]) + enc_items(enc, items.drop_first())
    }
}

/// The encoding of a list: the count of its items, then the items.
pub open spec fn enc_list<T>(enc: spec_fn(T) -> Seq<u8>, items: Seq<T>) -> Seq<u8> {
    enc_u64(items.len() as u64) + enc_items(enc, items)
}

/// Reads a 32-bit integer off the front of `input`.
pub open spec fn parse_u32(input: Seq<u8>) -> Result<(u32, Seq<u8>), WireError> {
    if input.len() < 4 {
        Err(WireError::Truncated)
    } else {
        Ok((spec_u32_from_le_bytes(input.take(4)), input.skip(4)))
    }
}

/// Reads a 64-bit integer off the front of `input`.
pub open spec fn parse_u64(input: Seq<u8>) -> Result<(u64, Seq<u8>), WireError> {
    if input.len() < 8 {
        Err(WireError::Truncated)
    } else {
        Ok((spec_u64_from_le_bytes(input.take(8)), input.skip(8)))
    }
}

/// Reads an address or a size off the front of `input`.
pub open spec fn parse_word(input: Seq<u8>) -> Result<(usize, Seq<u8>), WireError> {
    match parse_u64(input) {
        Err(e) => Err(e),
        Ok((x, rest)) => if x <= usize::MAX {
            Ok((x as usize, rest))
        } else {
            Err(WireError::TooLarge)
        },
    }
}

/// Reads a path off the front of `input`.
pub open spec fn parse_path(input: Seq<u8>) -> Result<(Seq<char>, Seq<u8>), WireError> {
    match parse_u64(input) {
        Err(e) => Err(e),
        Ok((n, rest)) => if rest.len() < n {
            Err(WireError::Truncated)
        } else if !valid_utf8(rest.take(n as int)) {
            Err(WireError::BadPath)
        } else {
            Ok((decode_utf8(rest.take(n as int)), rest.skip(n as int)))
        },
    }
}

/// Reads `count` items off the front of `input`, each with `parse`.
pub open spec fn parse_items<T>(
    parse: spec_fn(Seq<u8>) -> Result<(T, Seq<u8>), WireError>,
    count: nat,
    input: Seq<u8>,
) -> Result<(Seq<T>, Seq<u8>), WireError>
    decreases count,
{
    if count == 0 {
        Ok((Seq::empty(), input))
    } else {
        match parse(input) {
            Err(e) => Err(e),
            Ok((item, rest)) => match parse_items(parse, (count - 1) as nat, rest) {
                Err(e) => Err(e),
                Ok((items, rest)) => Ok((seq![item] + items, rest)),
            },
        }
    }
}

/// Reads a list off the front of `input`: its count, then its items.
pub open spec fn parse_list<T>(
    parse: spec_fn(Seq<u8>) -> Result<(T, Seq<u8>), WireError>,
    input: Seq<u8>,
) -> Result<(Seq<T>, Seq<u8>), WireError> {
    match parse_word(input) {
        Err(e) => Err(e),
        Ok((count, rest)) => parse_items(parse, count as nat, rest),
    }
}

/// Whether `parse` reads back whatever `enc` wrote, and leaves what follows.
pub open spec fn reads_back<T>(
    enc: spec_fn(T) -> Seq<u8>,
    parse: spec_fn(Seq<u8>) -> Result<(T, Seq<u8>), WireError>,
    item: T,
) -> bool {
    forall|rest: Seq<u8>| #[trigger] parse(enc(item) + rest) == Ok::<_, WireError>((item, rest))
}

/// Whether `parse` accepts nothing but what `enc` writes.
pub open spec fn reads_only<T>(
    enc: spec_fn(T) -> Seq<u8>,
    parse: spec_fn(Seq<u8>) -> Result<(T, Seq<u8>), WireError>,
) -> bool {
    forall|input: Seq<u8>|
        (#[trigger] parse(input)) matches Ok((item, rest)) ==> input == enc(item) + rest
}

/// A 32-bit integer is read back as written.
pub proof fn lemma_u32_reads_back(x: u32, rest: Seq<u8>)
    ensures
        parse_u32(enc_u32(x) + rest) == Ok::<_, WireError>((x, rest)),
        enc_u32(x).len() == 4,
{
    lemma_auto_spec_u32_to_from_le_bytes();
    assert((enc_u32(x) + rest).take(4) =~= enc_u32(x));
    assert((enc_u32(x) + rest).skip(4) =~= rest);
}

/// A 64-bit integer is read back as written.
pub proof fn lemma_u64_reads_back(x: u64, rest: Seq<u8>)
    ensures
        parse_u64(enc_u64(x) + rest) == Ok::<_, WireError>((x, rest)),
        enc_u64(x).len() == 8,
{
    lemma_auto_spec_u64_to_from_le_bytes();
    assert((enc_u64(x) + rest).take(8) =~= enc_u64(x));
    assert((enc_u64(x) + rest).skip(8) =~= rest);
}

/// An address is read back as written.
pub proof fn lemma_word_reads_back(x: usize, rest: Seq<u8>)
    ensures
        parse_word(enc_word(x) + rest) == Ok::<_, WireError>((x, rest)),
        enc_word(x).len() == 8,
{
    lemma_u64_reads_back(x as u64, rest);
}

/// A path is read back as written.
pub proof fn lemma_path_reads_back(path: Seq<char>, rest: Seq<u8>)
    requires
        encode_utf8(path).len() <= u64::MAX,
    ensures
        parse_path(enc_path(path) + rest) == Ok::<_, WireError>((path, rest)),
{
    let bytes = encode_utf8(path);
    let n = bytes.len() as u64;
    assert(enc_path(path) + rest =~= enc_u64(n) + (bytes + rest));
    lemma_u64_reads_back(n, bytes + rest);
    assert((bytes + rest).take(n as int) =~= bytes);
    assert((bytes + rest).skip(n as int) =~= rest);
    vstd::utf8::encode_utf8_valid_utf8(path);
    vstd::utf8::encode_utf8_decode_utf8(path);
}

/// Only what encodes a 32-bit integer is read as one.
pub proof fn lemma_u32_reads_only(input: Seq<u8>)
    ensures
        parse_u32(input) matches Ok((x, rest)) ==> input == enc_u32(x) + rest,
{
    lemma_auto_spec_u32_to_from_le_bytes();
    if input.len() >= 4 {
        assert(input =~= input.take(4) + input.skip(4));
    }
}

/// Only what encodes a 64-bit integer is read as one.
pub proof fn lemma_u64_reads_only(input: Seq<u8>)
    ensures
        parse_u64(input) matches Ok((x, rest)) ==> input == enc_u64(x) + rest,
{
    lemma_auto_spec_u64_to_from_le_bytes();
    if input.len() >= 8 {
        assert(input =~= input.take(8) + input.skip(8));
    }
}

/// Only what encodes an address is read as one.
pub proof fn lemma_word_reads_only(input: Seq<u8>)
    ensures
        parse_word(input) matches Ok((x, rest)) ==> input == enc_word(x) + rest,
{
    lemma_u64_reads_only(input);
}

/// Only what encodes a path is read as one.
pub proof fn lemma_path_reads_only(input: Seq<u8>)
    ensures
        parse_path(input) matches Ok((path, rest)) ==> input == enc_path(path) + rest,
{
    lemma_u64_reads_only(input);
    if let Ok((n, after)) = parse_u64(input) {
        if after.len() >= n && valid_utf8(after.take(n as int)) {
            let bytes = after.take(n as int);
            vstd::utf8::decode_utf8_encode_utf8(bytes);
            assert(after =~= bytes + after.skip(n as int));
            assert(input =~= enc_path(decode_utf8(bytes)) + after.skip(n as int));
        }
    }
}

/// The encodings of items with one more item at the end.
pub proof fn lemma_enc_items_push<T>(enc: spec_fn(T) -> Seq<u8>, items: Seq<T>, last: T)
    ensures
        enc_items(enc, items.push(last)) == enc_items(enc, items) + enc(last),
    decreases items.len(),
{
    if items.len() == 0 {
        assert(items.push(last).drop_first() =~= items);
        assert(enc_items(enc, items.push(last)) =~= enc_items(enc, items) + enc(last));
    } else {
        assert(items.push(last).drop_first() =~= items.drop_first().push(last));
        lemma_enc_items_push(enc, items.drop_first(), last);
        assert(enc_items(enc, items.push(last)) =~= enc_items(enc, items) + enc(last));
    }
}

/// Items are read back as written, where each of them is.
pub proof fn lemma_items_read_back<T>(
    enc: spec_fn(T) -> Seq<u8>,
    parse: spec_fn(Seq<u8>) -> Result<(T, Seq<u8>), WireError>,
    items: Seq<T>,
    rest: Seq<u8>,
)
    requires
        forall|i: int| 0 <= i < items.len() ==> reads_back(enc, parse, #[trigger] items[i]),
    ensures
        parse_items(parse, items.len(), enc_items(enc, items) + rest) == Ok::<_, WireError>(
            (items, rest),
        ),
    decreases items.len(),
{
    if items.len() == 0 {
        assert(enc_items(enc, items) + rest =~= rest);
        assert(items =~= Seq::<T>::empty());
    } else {
        let tail = items.drop_first();
        assert(reads_back(enc, parse, items[0]));
        assert(enc_items(enc, items) + rest =~= enc(items[0]) + (enc_items(enc, tail) + rest));
        assert(parse(enc(items[0]) + (enc_items(enc, tail) + rest)) == Ok::<_, WireError>(
            (items[0], enc_items(enc, tail) + rest),
        ));
        assert forall|i: int| 0 <= i < tail.len() implies reads_back(enc, parse, #[trigger] tail[i]) by {
            assert(tail[i] == items[i + 1]);
        }
        lemma_items_read_back(enc, parse, tail, rest);
        assert(seq![items[0]] + tail =~= items);
    }
}

/// A list is read back as written, where each of its items is.
pub proof fn lemma_list_reads_back<T>(
    enc: spec_fn(T) -> Seq<u8>,
    parse: spec_fn(Seq<u8>) -> Result<(T, Seq<u8>), WireError>,
    items: Seq<T>,
    rest: Seq<u8>,
)
    requires
        items.len() <= usize::MAX,
        forall|i: int| 0 <= i < items.len() ==> reads_back(enc, parse, #[trigger] items[i]),
    ensures
        parse_list(parse, enc_list(enc, items) + rest) == Ok::<_, WireError>((items, rest)),
{
    let n = items.len() as usize;
    assert(enc_list(enc, items) + rest =~= enc_word(n) + (enc_items(enc, items) + rest));
    lemma_word_reads_back(n, enc_items(enc, items) + rest);
    lemma_items_read_back(enc, parse, items, rest);
}

/// Only what encodes items is read as items, where that holds of each.
pub proof fn lemma_items_read_only<T>(
    enc: spec_fn(T) -> Seq<u8>,
    parse: spec_fn(Seq<u8>) -> Result<(T, Seq<u8>), WireError>,
    count: nat,
    input: Seq<u8>,
)
    requires
        reads_only(enc, parse),
    ensures
        parse_items(parse, count, input) matches Ok((items, rest)) ==> items.len() == count && input
            == enc_items(enc, items) + rest,
    decreases count,
{
    if count == 0 {
        assert(input =~= enc_items(enc, Seq::<T>::empty()) + input);
    } else if let Ok((item, after)) = parse(input) {
        lemma_items_read_only(enc, parse, (count - 1) as nat, after);
        if let Ok((items, rest)) = parse_items(parse, (count - 1) as nat, after) {
            let all = seq![item] + items;
            assert(all.drop_first() =~= items);
            assert(input =~= enc_items(enc, all) + rest);
        }
    }
}

/// Only what encodes a list is read as a list, where that holds of each item.
pub proof fn lemma_list_reads_only<T>(
    enc: spec_fn(T) -> Seq<u8>,
    parse: spec_fn(Seq<u8>) -> Result<(T, Seq<u8>), WireError>,
    input: Seq<u8>,
)
    requires
        reads_only(enc, parse),
    ensures
        parse_list(parse, input) matches Ok((items, rest)) ==> input == enc_list(enc, items) + rest,
{
    lemma_word_reads_only(input);
    if let Ok((count, after)) = parse_word(input) {
        lemma_items_read_only(enc, parse, count as nat, after);
        if let Ok((items, rest)) = parse_items(parse, count as nat, after) {
            assert(input =~= enc_list(enc, items) + rest);
        }
    }
}

/// The encoding of a segment descriptor: its address, then its size.
pub open spec fn enc_phdr(phdr: PHdr) -> Seq<u8> {
    enc_word(phdr.vaddr) + enc_word(phdr.memsize)
}

/// Reads a segment descriptor off the front of `input`.
pub open spec fn parse_phdr(input: Seq<u8>) -> Result<(PHdr, Seq<u8>), WireError> {
    match parse_word(input) {
        Err(e) => Err(e),
        Ok((vaddr, rest)) => match parse_word(rest) {
            Err(e) => Err(e),
            Ok((memsize, rest)) => Ok((PHdr { vaddr, memsize }, rest)),
        },
    }
}

/// The encoding of one entry of a response: the address, then the byte.
pub open spec fn enc_entry(entry: (usize, u8)) -> Seq<u8> {
    enc_word(entry.0) + seq![entry.1]
}

/// Reads one entry of a response off the front of `input`.
pub open spec fn parse_entry(input: Seq<u8>) -> Result<((usize, u8), Seq<u8>), WireError> {
    match parse_word(input) {
        Err(e) => Err(e),
        Ok((addr, rest)) => if rest.len() < 1 {
            Err(WireError::Truncated)
        } else {
            Ok(((addr, rest[0]), rest.skip(1)))
        },
    }
}

/// [`enc_word`] as a value.
pub open spec fn word_enc() -> spec_fn(usize) -> Seq<u8> {
    |x: usize| enc_word(x)
}

/// [`parse_word`] as a value.
pub open spec fn word_parse() -> spec_fn(Seq<u8>) -> Result<(usize, Seq<u8>), WireError> {
    |input: Seq<u8>| parse_word(input)
}

/// [`enc_phdr`] as a value.
pub open spec fn phdr_enc() -> spec_fn(PHdr) -> Seq<u8> {
    |p: PHdr| enc_phdr(p)
}

/// [`parse_phdr`] as a value.
pub open spec fn phdr_parse() -> spec_fn(Seq<u8>) -> Result<(PHdr, Seq<u8>), WireError> {
    |input: Seq<u8>| parse_phdr(input)
}

/// [`enc_entry`] as a value.
pub open spec fn entry_enc() -> spec_fn((usize, u8)) -> Seq<u8> {
    |e: (usize, u8)| enc_entry(e)
}

/// [`parse_entry`] as a value.
pub open spec fn entry_parse() -> spec_fn(Seq<u8>) -> Result<((usize, u8), Seq<u8>), WireError> {
    |input: Seq<u8>| parse_entry(input)
}

/// The encoding of an object: process id, path, load bias, segments.
pub open spec fn enc_object(object: ObjectInfoView) -> Seq<u8> {
    enc_u32(object.pid) + enc_path(object.path) + enc_word(object.addr) + enc_list(
        phdr_enc(),
        object.phdrs,
    )
}

/// Reads an object off the front of `input`.
pub open spec fn parse_object(input: Seq<u8>) -> Result<(ObjectInfoView, Seq<u8>), WireError> {
    match parse_u32(input) {
        Err(e) => Err(e),
        Ok((pid, rest)) => match parse_path(rest) {
            Err(e) => Err(e),
            Ok((path, rest)) => match parse_word(rest) {
                Err(e) => Err(e),
                Ok((addr, rest)) => match parse_list(phdr_parse(), rest) {
                    Err(e) => Err(e),
                    Ok((phdrs, rest)) => Ok((ObjectInfoView { pid, path, addr, phdrs }, rest)),
                },
            },
        },
    }
}

/// [`enc_object`] as a value.
pub open spec fn object_enc() -> spec_fn(ObjectInfoView) -> Seq<u8> {
    |o: ObjectInfoView| enc_object(o)
}

/// [`parse_object`] as a value.
pub open spec fn object_parse() -> spec_fn(Seq<u8>) -> Result<(ObjectInfoView, Seq<u8>), WireError> {
    |input: Seq<u8>| parse_object(input)
}

/// The encoding of an object snapshot.
pub open spec fn enc_objects(objects: Seq<ObjectInfoView>) -> Seq<u8> {
    enc_list(object_enc(), objects)
}

/// The encoding of a breakpoint request.
pub open spec fn enc_request(breakpoints: Seq<usize>) -> Seq<u8> {
    enc_list(word_enc(), breakpoints)
}

/// The encoding of a breakpoint response.
pub open spec fn enc_response(set: Seq<(usize, u8)>) -> Seq<u8> {
    enc_list(entry_enc(), set)
}

/// Reads an object snapshot off the front of `input`.
pub open spec fn parse_objects(input: Seq<u8>) -> Result<(Seq<ObjectInfoView>, Seq<u8>), WireError> {
    parse_list(object_parse(), input)
}

/// Reads a breakpoint request off the front of `input`.
pub open spec fn parse_request(input: Seq<u8>) -> Result<(Seq<usize>, Seq<u8>), WireError> {
    parse_list(word_parse(), input)
}

/// Reads a breakpoint response off the front of `input`.
pub open spec fn parse_response(input: Seq<u8>) -> Result<(Seq<(usize, u8)>, Seq<u8>), WireError> {
    parse_list(entry_parse(), input)
}

/// Whether the counts in an object fit the integers that carry them.
pub open spec fn object_fits(object: ObjectInfoView) -> bool {
    encode_utf8(object.path).len() <= u64::MAX && object.phdrs.len() <= usize::MAX
}

/// Each item codec reads back what it wrote, and accepts nothing else.
pub proof fn lemma_item_codecs()
    ensures
        forall|x: usize| #[trigger] reads_back(word_enc(), word_parse(), x),
        forall|p: PHdr| #[trigger] reads_back(phdr_enc(), phdr_parse(), p),
        forall|e: (usize, u8)| #[trigger] reads_back(entry_enc(), entry_parse(), e),
        reads_only(word_enc(), word_parse()),
        reads_only(phdr_enc(), phdr_parse()),
        reads_only(entry_enc(), entry_parse()),
{
    assert forall|x: usize| #[trigger] reads_back(word_enc(), word_parse(), x) by {
        assert forall|rest: Seq<u8>| #[trigger]
            word_parse()(word_enc()(x) + rest) == Ok::<_, WireError>((x, rest)) by {
            lemma_word_reads_back(x, rest);
        }
    }
    assert forall|p: PHdr| #[trigger] reads_back(phdr_enc(), phdr_parse(), p) by {
        assert forall|rest: Seq<u8>| #[trigger]
            phdr_parse()(phdr_enc()(p) + rest) == Ok::<_, WireError>((p, rest)) by {
            assert(enc_phdr(p) + rest =~= enc_word(p.vaddr) + (enc_word(p.memsize) + rest));
            lemma_word_reads_back(p.vaddr, enc_word(p.memsize) + rest);
            lemma_word_reads_back(p.memsize, rest);
        }
    }
    assert forall|e: (usize, u8)| #[trigger] reads_back(entry_enc(), entry_parse(), e) by {
        assert forall|rest: Seq<u8>| #[trigger]
            entry_parse()(entry_enc()(e) + rest) == Ok::<_, WireError>((e, rest)) by {
            let after = seq![e.1] + rest;
            assert(enc_entry(e) + rest =~= enc_word(e.0) + after);
            lemma_word_reads_back(e.0, after);
            assert(after.skip(1) =~= rest);
        }
    }
    assert forall|input: Seq<u8>|
        #![trigger word_parse()(input)]
        (word_parse()(input) matches Ok((item, rest)) ==> input == word_enc()(item) + rest) by {
        lemma_word_reads_only(input);
    }
    assert forall|input: Seq<u8>|
        #![trigger phdr_parse()(input)]
        (phdr_parse()(input) matches Ok((item, rest)) ==> input == phdr_enc()(item) + rest) by {
        lemma_word_reads_only(input);
        if let Ok((vaddr, after)) = parse_word(input) {
            lemma_word_reads_only(after);
            if let Ok((memsize, rest)) = parse_word(after) {
                assert(input =~= enc_phdr(PHdr { vaddr, memsize }) + rest);
            }
        }
    }
    assert forall|input: Seq<u8>|
        #![trigger entry_parse()(input)]
        (entry_parse()(input) matches Ok((item, rest)) ==> input == entry_enc()(item) + rest) by {
        lemma_word_reads_only(input);
        if let Ok((addr, after)) = parse_word(input) {
            if after.len() >= 1 {
                assert(after =~= seq![after[0]] + after.skip(1));
                assert(input =~= enc_entry((addr, after[0])) + after.skip(1));
            }
        }
    }
}

/// An object is read back as written.
pub proof fn lemma_object_reads_back(object: ObjectInfoView, rest: Seq<u8>)
    requires
        object_fits(object),
    ensures
        parse_object(enc_object(object) + rest) == Ok::<_, WireError>((object, rest)),
{
    let list = enc_list(phdr_enc(), object.phdrs);
    let after_addr = list + rest;
    let after_path = enc_word(object.addr) + after_addr;
    let after_pid = enc_path(object.path) + after_path;
    assert(enc_object(object) + rest =~= enc_u32(object.pid) + after_pid);
    lemma_u32_reads_back(object.pid, after_pid);
    lemma_path_reads_back(object.path, after_path);
    lemma_word_reads_back(object.addr, after_addr);
    lemma_item_codecs();
    lemma_list_reads_back(phdr_enc(), phdr_parse(), object.phdrs, rest);
}

/// Only what encodes an object is read as one.
pub proof fn lemma_object_reads_only(input: Seq<u8>)
    ensures
        parse_object(input) matches Ok((object, rest)) ==> input == enc_object(object) + rest,
{
    lemma_u32_reads_only(input);
    if let Ok((pid, after_pid)) = parse_u32(input) {
        lemma_path_reads_only(after_pid);
        if let Ok((path, after_path)) = parse_path(after_pid) {
            lemma_word_reads_only(after_path);
            if let Ok((addr, after_addr)) = parse_word(after_path) {
                lemma_item_codecs();
                lemma_list_reads_only(phdr_enc(), phdr_parse(), after_addr);
                if let Ok((phdrs, rest)) = parse_list(phdr_parse(), after_addr) {
                    let object = ObjectInfoView { pid, path, addr, phdrs };
                    assert(input =~= enc_object(object) + rest);
                }
            }
        }
    }
}

/// Decoding the encoding of an object snapshot gives the snapshot back, and
/// leaves what follows it.
pub proof fn law_objects_round_trip(objects: Seq<ObjectInfoView>, rest: Seq<u8>)
    requires
        objects.len() <= usize::MAX,
        forall|i: int| 0 <= i < objects.len() ==> object_fits(#[trigger] objects[i]),
    ensures
        parse_objects(enc_objects(objects) + rest) == Ok::<_, WireError>((objects, rest)),
{
    assert forall|i: int| 0 <= i < objects.len() implies reads_back(
        object_enc(),
        object_parse(),
        #[trigger] objects[i],
    ) by {
        assert forall|after: Seq<u8>| #[trigger]
            object_parse()(object_enc()(objects[i]) + after) == Ok::<_, WireError>(
                (objects[i], after),
            ) by {
            lemma_object_reads_back(objects[i], after);
        }
    }
    lemma_list_reads_back(object_enc(), object_parse(), objects, rest);
}

/// Decoding the encoding of a breakpoint request gives the request back.
pub proof fn law_request_round_trip(breakpoints: Seq<usize>, rest: Seq<u8>)
    requires
        breakpoints.len() <= usize::MAX,
    ensures
        parse_request(enc_request(breakpoints) + rest) == Ok::<_, WireError>((breakpoints, rest)),
{
    lemma_item_codecs();
    lemma_list_reads_back(word_enc(), word_parse(), breakpoints, rest);
}

/// Decoding the encoding of a breakpoint response gives the response back.
pub proof fn law_response_round_trip(set: Seq<(usize, u8)>, rest: Seq<u8>)
    requires
        set.len() <= usize::MAX,
    ensures
        parse_response(enc_response(set) + rest) == Ok::<_, WireError>((set, rest)),
{
    lemma_item_codecs();
    lemma_list_reads_back(entry_enc(), entry_parse(), set, rest);
}

/// Whatever is decoded as a message is the encoding of that message followed
/// by the bytes left over: no two byte strings decode to the same message and
/// remainder.
pub proof fn law_decoded_is_encoding(input: Seq<u8>)
    ensures
        parse_objects(input) matches Ok((objects, rest)) ==> input == enc_objects(objects) + rest,
        parse_request(input) matches Ok((breakpoints, rest)) ==> input == enc_request(breakpoints)
            + rest,
        parse_response(input) matches Ok((set, rest)) ==> input == enc_response(set) + rest,
{
    lemma_item_codecs();
    assert(reads_only(object_enc(), object_parse())) by {
        assert forall|bytes: Seq<u8>|
            #![trigger object_parse()(bytes)]
            (object_parse()(bytes) matches Ok((item, rest)) ==> bytes == object_enc()(item) + rest) by {
            lemma_object_reads_only(bytes);
        }
    }
    lemma_list_reads_only(object_enc(), object_parse(), input);
    lemma_list_reads_only(word_enc(), word_parse(), input);
    lemma_list_reads_only(entry_enc(), entry_parse(), input);
}

/// `String::from_utf8`: the string that the bytes spell in UTF-8, or nothing
/// where they are not UTF-8.
#[verifier::external_body]
pub(crate) fn string_from_utf8(bytes: Vec<u8>) -> (text: Option<String>)
    ensures
        match text {
            Some(text) => valid_utf8(bytes@) && text@ == decode_utf8(bytes@),
            None => !valid_utf8(bytes@),
        },
{
    String::from_utf8(bytes).ok()
}

/// What a reader at `pos` in `bytes` hands back when the grammar gives
/// `parsed` for the bytes from `pos` on: the same value or error, and the
/// position of the first byte left over.
pub open spec fn read_at<T>(
    r: Result<(T, usize), WireError>,
    bytes: Seq<u8>,
    pos: usize,
    parsed: Result<(T, Seq<u8>), WireError>,
) -> bool {
    match parsed {
        Err(e) => r == Err::<(T, usize), WireError>(e),
        Ok((value, rest)) => r matches Ok((x, end)) && x == value && pos <= end <= bytes.len()
            && rest == bytes.skip(end as int),
    }
}

fn put_u32(out: &mut Vec<u8>, x: u32)
    ensures
        final(out)@ == old(out)@ + enc_u32(x),
{
    let mut bytes = u32_to_le_bytes(x);
    out.append(&mut bytes);
}

fn put_u64(out: &mut Vec<u8>, x: u64)
    ensures
        final(out)@ == old(out)@ + enc_u64(x),
{
    let mut bytes = u64_to_le_bytes(x);
    out.append(&mut bytes);
}

fn put_word(out: &mut Vec<u8>, x: usize)
    ensures
        final(out)@ == old(out)@ + enc_word(x),
{
    put_u64(out, x as u64);
}

fn put_path(out: &mut Vec<u8>, path: &str)
    ensures
        final(out)@ == old(out)@ + enc_path(path@),
{
    let mut bytes = slice_to_vec(path.as_bytes());
    let ghost before = out@;
    put_u64(out, bytes.len() as u64);
    out.append(&mut bytes);
    assert(out@ =~= before + enc_path(path@));
}

fn take_u32(bytes: &[u8], pos: usize) -> (r: Result<(u32, usize), WireError>)
    requires
        pos <= bytes@.len(),
    ensures
        read_at(r, bytes@, pos, parse_u32(bytes@.skip(pos as int))),
{
    if bytes.len() - pos < 4 {
        return Err(WireError::Truncated);
    }
    let x = u32_from_le_bytes(slice_subrange(bytes, pos, pos + 4));
    assert(bytes@.subrange(pos as int, pos + 4) =~= bytes@.skip(pos as int).take(4));
    assert(bytes@.skip(pos as int).skip(4) =~= bytes@.skip(pos + 4));
    Ok((x, pos + 4))
}

fn take_u64(bytes: &[u8], pos: usize) -> (r: Result<(u64, usize), WireError>)
    requires
        pos <= bytes@.len(),
    ensures
        read_at(r, bytes@, pos, parse_u64(bytes@.skip(pos as int))),
{
    if bytes.len() - pos < 8 {
        return Err(WireError::Truncated);
    }
    let x = u64_from_le_bytes(slice_subrange(bytes, pos, pos + 8));
    assert(bytes@.subrange(pos as int, pos + 8) =~= bytes@.skip(pos as int).take(8));
    assert(bytes@.skip(pos as int).skip(8) =~= bytes@.skip(pos + 8));
    Ok((x, pos + 8))
}

fn take_word(bytes: &[u8], pos: usize) -> (r: Result<(usize, usize), WireError>)
    requires
        pos <= bytes@.len(),
    ensures
        read_at(r, bytes@, pos, parse_word(bytes@.skip(pos as int))),
{
    match take_u64(bytes, pos) {
        Err(e) => Err(e),
        Ok((x, end)) => {
            if x <= usize::MAX as u64 {
                Ok((x as usize, end))
            } else {
                Err(WireError::TooLarge)
            }
        },
    }
}

fn take_path(bytes: &[u8], pos: usize) -> (r: Result<(String, usize), WireError>)
    requires
        pos <= bytes@.len(),
    ensures
        match parse_path(bytes@.skip(pos as int)) {
            Err(e) => r == Err::<(String, usize), WireError>(e),
            Ok((path, rest)) => r matches Ok((text, end)) && text@ == path && pos <= end
                <= bytes@.len() && rest == bytes@.skip(end as int),
        },
{
    match take_u64(bytes, pos) {
        Err(e) => Err(e),
        Ok((n, start)) => {
            if ((bytes.len() - start) as u64) < n {
                return Err(WireError::Truncated);
            }
            let end = start + n as usize;
            let raw = slice_to_vec(slice_subrange(bytes, start, end));
            assert(bytes@.subrange(start as int, end as int) =~= bytes@.skip(start as int).take(
                n as int,
            ));
            assert(bytes@.skip(start as int).skip(n as int) =~= bytes@.skip(end as int));
            match string_from_utf8(raw) {
                None => Err(WireError::BadPath),
                Some(text) => Ok((text, end)),
            }
        },
    }
}

/// A value with an encoding: what it stands for, how that is written, and how
/// it is read.
pub trait Wire: Sized {
    /// What an encoded value stands for.
    type Model;

    /// What this value stands for.
    spec fn model(&self) -> Self::Model;

    /// The bytes that stand for `m`.
    spec fn enc(m: Self::Model) -> Seq<u8>;

    /// Reads a value off the front of `input`.
    spec fn parse(input: Seq<u8>) -> Result<(Self::Model, Seq<u8>), WireError>;

    /// Appends the encoding of this value to `out`.
    fn put(&self, out: &mut Vec<u8>)
        ensures
            final(out)@ == old(out)@ + Self::enc(self.model()),
    ;

    /// Reads a value from `bytes` at `pos`; hands it back with the position of
    /// the first byte after it.
    fn take(bytes: &[u8], pos: usize) -> (r: Result<(Self, usize), WireError>)
        requires
            pos <= bytes@.len(),
        ensures
            match Self::parse(bytes@.skip(pos as int)) {
                Err(e) => r == Err::<(Self, usize), WireError>(e),
                Ok((m, rest)) => r matches Ok((x, end)) && x.model() == m && pos <= end
                    <= bytes@.len() && rest == bytes@.skip(end as int),
            },
    ;
}

/// What the values stand for, in order.
pub open spec fn models<T: Wire>(items: Seq<T>) -> Seq<T::Model> {
    items.map_values(|x: T| x.model())
}

/// [`Wire::enc`] as a value.
pub open spec fn enc_of<T: Wire>() -> spec_fn(T::Model) -> Seq<u8> {
    |m: T::Model| T::enc(m)
}

/// [`Wire::parse`] as a value.
pub open spec fn parse_of<T: Wire>() -> spec_fn(Seq<u8>) -> Result<(T::Model, Seq<u8>), WireError> {
    |input: Seq<u8>| T::parse(input)
}

impl Wire for usize {
    type Model = usize;

    open spec fn model(&self) -> usize {
        *self
    }

    open spec fn enc(m: usize) -> Seq<u8> {
        enc_word(m)
    }

    open spec fn parse(input: Seq<u8>) -> Result<(usize, Seq<u8>), WireError> {
        parse_word(input)
    }

    fn put(&self, out: &mut Vec<u8>) {
        put_word(out, *self);
    }

    fn take(bytes: &[u8], pos: usize) -> (r: Result<(usize, usize), WireError>) {
        take_word(bytes, pos)
    }
}

impl Wire for PHdr {
    type Model = PHdr;

    open spec fn model(&self) -> PHdr {
        *self
    }

    open spec fn enc(m: PHdr) -> Seq<u8> {
        enc_phdr(m)
    }

    open spec fn parse(input: Seq<u8>) -> Result<(PHdr, Seq<u8>), WireError> {
        parse_phdr(input)
    }

    fn put(&self, out: &mut Vec<u8>) {
        let ghost before = out@;
        put_word(out, self.vaddr);
        put_word(out, self.memsize);
        assert(out@ =~= before + enc_phdr(*self));
    }

    fn take(bytes: &[u8], pos: usize) -> (r: Result<(PHdr, usize), WireError>) {
        match take_word(bytes, pos) {
            Err(e) => Err(e),
            Ok((vaddr, next)) => match take_word(bytes, next) {
                Err(e) => Err(e),
                Ok((memsize, end)) => Ok((PHdr { vaddr, memsize }, end)),
            },
        }
    }
}

impl Wire for (usize, BreakpointInst) {
    type Model = (usize, u8);

    open spec fn model(&self) -> (usize, u8) {
        (self.0, self.1@)
    }

    open spec fn enc(m: (usize, u8)) -> Seq<u8> {
        enc_entry(m)
    }

    open spec fn parse(input: Seq<u8>) -> Result<((usize, u8), Seq<u8>), WireError> {
        parse_entry(input)
    }

    fn put(&self, out: &mut Vec<u8>) {
        let ghost before = out@;
        put_word(out, self.0);
        out.push(self.1.byte());
        assert(out@ =~= before + enc_entry((self.0, self.1@)));
    }

    fn take(bytes: &[u8], pos: usize) -> (r: Result<((usize, BreakpointInst), usize), WireError>) {
        match take_word(bytes, pos) {
            Err(e) => Err(e),
            Ok((addr, next)) => {
                if next >= bytes.len() {
                    return Err(WireError::Truncated);
                }
                let byte = bytes[next];
                assert(bytes@.skip(next as int)[0] == byte);
                assert(bytes@.skip(next as int).skip(1) =~= bytes@.skip(next + 1));
                Ok(((addr, BreakpointInst::new(byte)), next + 1))
            },
        }
    }
}

/// What reading a list gives once `done` was read and `tail` is what reading
/// the rest gives.
pub open spec fn continued<T>(
    done: Seq<T>,
    tail: Result<(Seq<T>, Seq<u8>), WireError>,
) -> Result<(Seq<T>, Seq<u8>), WireError> {
    match tail {
        Err(e) => Err(e),
        Ok((items, rest)) => Ok((done + items, rest)),
    }
}

/// Reading one more item moves it from the rest to what is done.
proof fn lemma_parse_items_step<T>(
    parse: spec_fn(Seq<u8>) -> Result<(T, Seq<u8>), WireError>,
    done: Seq<T>,
    left: nat,
    input: Seq<u8>,
)
    requires
        left > 0,
    ensures
        match parse(input) {
            Err(e) => continued(done, parse_items(parse, left, input)) == Err::<
                (Seq<T>, Seq<u8>),
                WireError,
            >(e),
            Ok((item, rest)) => continued(done, parse_items(parse, left, input)) == continued(
                done.push(item),
                parse_items(parse, (left - 1) as nat, rest),
            ),
        },
{
    if let Ok((item, rest)) = parse(input) {
        if let Ok((items, after)) = parse_items(parse, (left - 1) as nat, rest) {
            assert(done + (seq![item] + items) =~= done.push(item) + items);
        }
    }
}

/// Appends the encoding of a list to `out`.
fn put_list<T: Wire>(out: &mut Vec<u8>, items: &Vec<T>)
    ensures
        final(out)@ == old(out)@ + enc_list(enc_of::<T>(), models(items@)),
{
    let ghost before = out@;
    put_word(out, items.len());
    let mut i: usize = 0;
    assert(models(items@.take(0)) =~= Seq::<T::Model>::empty());
    assert(out@ =~= before + enc_word(items.len()) + enc_items(
        enc_of::<T>(),
        models(items@.take(0)),
    ));
    while i < items.len()
        invariant
            i <= items.len(),
            out@ == before + enc_word(items.len()) + enc_items(
                enc_of::<T>(),
                models(items@.take(i as int)),
            ),
        decreases items.len() - i,
    {
        items[i].put(out);
        proof {
            let done = models(items@.take(i as int));
            assert(models(items@.take(i + 1)) =~= done.push(items[i as int].model()));
            lemma_enc_items_push(enc_of::<T>(), done, items[i as int].model());
            assert(out@ =~= before + enc_word(items.len()) + enc_items(
                enc_of::<T>(),
                models(items@.take(i + 1)),
            ));
        }
        i += 1;
    }
    assert(items@.take(i as int) =~= items@);
    assert(out@ =~= before + enc_list(enc_of::<T>(), models(items@)));
}

/// Reads a list from `bytes` at `pos`.
fn take_list<T: Wire>(bytes: &[u8], pos: usize) -> (r: Result<(Vec<T>, usize), WireError>)
    requires
        pos <= bytes@.len(),
    ensures
        match parse_list(parse_of::<T>(), bytes@.skip(pos as int)) {
            Err(e) => r == Err::<(Vec<T>, usize), WireError>(e),
            Ok((items, rest)) => r matches Ok((list, end)) && models(list@) == items && pos <= end
                <= bytes@.len() && rest == bytes@.skip(end as int),
        },
{
    let (count, start) = match take_word(bytes, pos) {
        Err(e) => { return Err(e); },
        Ok(found) => found,
    };
    let ghost whole = parse_items(parse_of::<T>(), count as nat, bytes@.skip(start as int));
    let mut list: Vec<T> = Vec::new();
    let mut at = start;
    let mut i: usize = 0;
    proof {
        assert(models(list@) =~= Seq::<T::Model>::empty());
        if let Ok((items, rest)) = whole {
            assert(Seq::<T::Model>::empty() + items =~= items);
        }
    }
    while i < count
        invariant
            i <= count,
            pos <= at <= bytes@.len(),
            parse_list(parse_of::<T>(), bytes@.skip(pos as int)) == whole,
            whole == continued(
                models(list@),
                parse_items(parse_of::<T>(), (count - i) as nat, bytes@.skip(at as int)),
            ),
        decreases count - i,
    {
        proof {
            lemma_parse_items_step(
                parse_of::<T>(),
                models(list@),
                (count - i) as nat,
                bytes@.skip(at as int),
            );
        }
        match T::take(bytes, at) {
            Err(e) => { return Err(e); },
            Ok((item, next)) => {
                let ghost done = models(list@);
                list.push(item);
                assert(models(list@) =~= done.push(item.model()));
                at = next;
            },
        }
        i += 1;
    }
    proof {
        assert(models(list@) + Seq::<T::Model>::empty() =~= models(list@));
    }
    Ok((list, at))
}

/// The item codecs of the trait are those of the grammar.
proof fn lemma_codecs_agree()
    ensures
        enc_of::<usize>() == word_enc(),
        parse_of::<usize>() == word_parse(),
        enc_of::<PHdr>() == phdr_enc(),
        parse_of::<PHdr>() == phdr_parse(),
        enc_of::<(usize, BreakpointInst)>() == entry_enc(),
        parse_of::<(usize, BreakpointInst)>() == entry_parse(),
{
    assert(enc_of::<usize>() =~= word_enc());
    assert(parse_of::<usize>() =~= word_parse());
    assert(enc_of::<PHdr>() =~= phdr_enc());
    assert(parse_of::<PHdr>() =~= phdr_parse());
    assert(enc_of::<(usize, BreakpointInst)>() =~= entry_enc());
    assert(parse_of::<(usize, BreakpointInst)>() =~= entry_parse());
}

impl Wire for ObjectInfo {
    type Model = ObjectInfoView;

    open spec fn model(&self) -> ObjectInfoView {
        self@
    }

    open spec fn enc(m: ObjectInfoView) -> Seq<u8> {
        enc_object(m)
    }

    open spec fn parse(input: Seq<u8>) -> Result<(ObjectInfoView, Seq<u8>), WireError> {
        parse_object(input)
    }

    fn put(&self, out: &mut Vec<u8>) {
        let ghost before = out@;
        put_u32(out, self.pid);
        put_path(out, self.path.as_str());
        put_word(out, self.addr);
        put_list::<PHdr>(out, &self.phdrs);
        proof {
            lemma_codecs_agree();
            assert(models(self.phdrs@) =~= self.phdrs@);
            assert(out@ =~= before + enc_object(self@));
        }
    }

    fn take(bytes: &[u8], pos: usize) -> (r: Result<(ObjectInfo, usize), WireError>) {
        proof {
            lemma_codecs_agree();
        }
        let (pid, at) = match take_u32(bytes, pos) {
            Err(e) => { return Err(e); },
            Ok(found) => found,
        };
        let (path, at) = match take_path(bytes, at) {
            Err(e) => { return Err(e); },
            Ok(found) => found,
        };
        let (addr, at) = match take_word(bytes, at) {
            Err(e) => { return Err(e); },
            Ok(found) => found,
        };
        let (phdrs, at) = match take_list::<PHdr>(bytes, at) {
            Err(e) => { return Err(e); },
            Ok(found) => found,
        };
        assert(models(phdrs@) =~= phdrs@);
        Ok((ObjectInfo { pid, path, addr, phdrs }, at))
    }
}

/// The object codec of the trait is that of the grammar.
proof fn lemma_object_codec_agrees()
    ensures
        enc_of::<ObjectInfo>() == object_enc(),
        parse_of::<ObjectInfo>() == object_parse(),
{
    assert(enc_of::<ObjectInfo>() =~= object_enc());
    assert(parse_of::<ObjectInfo>() =~= object_parse());
}

/// The bytes that carry a snapshot of the loaded objects.
pub fn encode_objects(objects: &Vec<ObjectInfo>) -> (bytes: Vec<u8>)
    ensures
        bytes@ == enc_objects(object_views(objects@)),
{
    let mut bytes: Vec<u8> = Vec::new();
    put_list::<ObjectInfo>(&mut bytes, objects);
    proof {
        lemma_object_codec_agrees();
        assert(models(objects@) =~= object_views(objects@));
        assert(bytes@ =~= enc_objects(object_views(objects@)));
    }
    bytes
}

/// Reads a snapshot of the loaded objects from the front of `bytes`, and says
/// how many bytes it took.
pub fn decode_objects(bytes: &[u8]) -> (r: Result<(Vec<ObjectInfo>, usize), WireError>)
    ensures
        match parse_objects(bytes@) {
            Err(e) => r == Err::<(Vec<ObjectInfo>, usize), WireError>(e),
            Ok((objects, rest)) => r matches Ok((list, used)) && object_views(list@) == objects
                && used <= bytes@.len() && rest == bytes@.skip(used as int),
        },
{
    proof {
        lemma_object_codec_agrees();
        assert(bytes@.skip(0) =~= bytes@);
    }
    match take_list::<ObjectInfo>(bytes, 0) {
        Err(e) => Err(e),
        Ok((list, used)) => {
            assert(models(list@) =~= object_views(list@));
            Ok((list, used))
        },
    }
}

/// The bytes that carry a breakpoint request.
pub fn encode_request(request: &SetBreakpointsReq) -> (bytes: Vec<u8>)
    ensures
        bytes@ == enc_request(request@),
{
    let mut bytes: Vec<u8> = Vec::new();
    put_list::<usize>(&mut bytes, &request.breakpoints);
    proof {
        lemma_codecs_agree();
        assert(models(request.breakpoints@) =~= request@);
        assert(bytes@ =~= enc_request(request@));
    }
    bytes
}

/// Reads a breakpoint request from the front of `bytes`, and says how many
/// bytes it took.
pub fn decode_request(bytes: &[u8]) -> (r: Result<(SetBreakpointsReq, usize), WireError>)
    ensures
        match parse_request(bytes@) {
            Err(e) => r == Err::<(SetBreakpointsReq, usize), WireError>(e),
            Ok((breakpoints, rest)) => r matches Ok((request, used)) && request@ == breakpoints
                && used <= bytes@.len() && rest == bytes@.skip(used as int),
        },
{
    proof {
        lemma_codecs_agree();
        assert(bytes@.skip(0) =~= bytes@);
    }
    match take_list::<usize>(bytes, 0) {
        Err(e) => Err(e),
        Ok((breakpoints, used)) => {
            assert(models(breakpoints@) =~= breakpoints@);
            Ok((SetBreakpointsReq { breakpoints }, used))
        },
    }
}

/// The bytes that carry a breakpoint response.
pub fn encode_response(response: &SetBreakpointsResp) -> (bytes: Vec<u8>)
    ensures
        bytes@ == enc_response(response@),
{
    let mut bytes: Vec<u8> = Vec::new();
    put_list::<(usize, BreakpointInst)>(&mut bytes, &response.set);
    proof {
        lemma_codecs_agree();
        assert(models(response.set@) =~= response@);
        assert(bytes@ =~= enc_response(response@));
    }
    bytes
}

/// Reads a breakpoint response from the front of `bytes`, and says how many
/// bytes it took.
pub fn decode_response(bytes: &[u8]) -> (r: Result<(SetBreakpointsResp, usize), WireError>)
    ensures
        match parse_response(bytes@) {
            Err(e) => r == Err::<(SetBreakpointsResp, usize), WireError>(e),
            Ok((set, rest)) => r matches Ok((response, used)) && response@ == set && used
                <= bytes@.len() && rest == bytes@.skip(used as int),
        },
{
    proof {
        lemma_codecs_agree();
        assert(bytes@.skip(0) =~= bytes@);
    }
    match take_list::<(usize, BreakpointInst)>(bytes, 0) {
        Err(e) => Err(e),
        Ok((set, used)) => {
            assert(models(set@) =~= replaced_views(set@));
            Ok((SetBreakpointsResp { set }, used))
        },
    }
}

} // verus!
