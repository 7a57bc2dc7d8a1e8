//! A deterministic ustar emitter.
//!
//! Every entry is a 512-byte header, the content, and zeros up to the
//! next multiple of 512. Owner, group and time fields stay zero, so that
//! equal listings give equal archives. Two zero blocks end the archive.

use crate::compress::{gzip_compress, gzip_compresses, gzip_stream};
use crate::error::{DecafError, Failure};
use crate::listing::{has_directory_bit, is_directory, views, Listing, ListingView};
use crate::wire::{overwritten, push_bytes, push_zeros, store_bytes, zeros};
use vstd::prelude::*;
use vstd::slice::*;
use vstd::utf8::*;

verus! {

/// The length of a tar block.
pub const BLOCK_LENGTH: usize = 512;

/// The longest path that a header can hold.
pub const LONGEST_PATH: usize = 255;

/// The length of the name field of a header.
pub const NAME_LENGTH: usize = 100;

/// The ASCII digit of `d`.
pub open spec fn digit(d: nat) -> u8 {
    (0x30 + d) as u8
}

/// `value` in octal, with leading zeros up to `width` digits, and with
/// more digits where the value needs them.
pub open spec fn octal(value: nat, width: nat) -> Seq<u8>
    decreases value, width,
{
    if value < 8 && width <= 1 {
        seq![digit(value)]
    } else {
        octal(value / 8, if width == 0 {
            0
        } else {
            (width - 1) as nat
        }) + seq![digit(value % 8)]
    }
}

/// What an octal field holds: the digits, and a NUL behind them.
pub open spec fn octal_field(value: nat, width: nat) -> Seq<u8> {
    octal(value, width) + seq![0u8]
}

/// The sum of the first `n` bytes of a header, with each byte of the
/// checksum field counted as a space.
pub open spec fn checksum_upto(header: Seq<u8>, n: nat) -> nat
    decreases n,
{
    if n == 0 {
        0
    } else {
        checksum_upto(header, (n - 1) as nat) + if 148 <= n - 1 < 156 {
            32
        } else {
            header[n - 1] as nat
        }
    }
}

/// The ustar checksum of a header.
pub open spec fn header_checksum(header: Seq<u8>) -> nat {
    checksum_upto(header, BLOCK_LENGTH as nat)
}

/// The end of the last `/` among the first `limit` bytes of `path`, or
/// zero if there is none.
pub open spec fn after_last_slash(path: Seq<u8>, limit: int) -> int
    decreases limit,
{
    if limit <= 0 {
        0
    } else if path[limit - 1] == 0x2f {
        limit
    } else {
        after_last_slash(path, limit - 1)
    }
}

/// Where a path is split into prefix and name: a path of up to 100 bytes
/// is all name; a longer one is split behind the last `/` that leaves the
/// name at least 100 bytes.
pub open spec fn split_point(path: Seq<u8>) -> int {
    if path.len() <= NAME_LENGTH {
        0
    } else {
        after_last_slash(path, path.len() - NAME_LENGTH)
    }
}

/// A long path is split behind a `/`, or not at all; the name keeps at
/// least 100 bytes; and no later `/` would leave it that many.
pub proof fn lemma_split_point(path: Seq<u8>)
    requires
        path.len() > NAME_LENGTH,
    ensures
        0 <= split_point(path) <= path.len() - NAME_LENGTH,
        split_point(path) == 0 || path[split_point(path) - 1] == 0x2f,
        forall|j: int| split_point(path) <= j < path.len() - NAME_LENGTH ==> path[j] != 0x2f,
{
    lemma_after_last_slash(path, path.len() - NAME_LENGTH);
}

/// The end of the last `/` among the first `limit` bytes lies behind a
/// `/` or at zero, and no `/` follows it among these bytes.
proof fn lemma_after_last_slash(path: Seq<u8>, limit: int)
    requires
        0 <= limit <= path.len(),
    ensures
        0 <= after_last_slash(path, limit) <= limit,
        after_last_slash(path, limit) == 0 || path[after_last_slash(path, limit) - 1] == 0x2f,
        forall|j: int| after_last_slash(path, limit) <= j < limit ==> path[j] != 0x2f,
    decreases limit,
{
    if limit > 0 && path[limit - 1] != 0x2f {
        lemma_after_last_slash(path, limit - 1);
    }
}

/// The type flag: `5` for a directory, `0` for a regular file.
pub open spec fn type_flag(permissions: u32) -> u8 {
    if is_directory(permissions) {
        0x35
    } else {
        0x30
    }
}

/// The bytes `ustar` and a NUL.
pub open spec fn ustar_magic() -> Seq<u8> {
    seq![0x75u8, 0x73u8, 0x74u8, 0x61u8, 0x72u8, 0x00u8]
}

/// The version `00`.
pub open spec fn ustar_version() -> Seq<u8> {
    seq![0x30u8, 0x30u8]
}

/// A header before its checksum is written: the fields are laid over a
/// zero block one after the other.
pub open spec fn header_fields(path: Seq<u8>, permissions: u32, size: nat) -> Seq<u8> {
    let at = split_point(path);
    let name = path.subrange(at, path.len() as int);
    let prefix = path.subrange(0, at);
    let named = overwritten(zeros(BLOCK_LENGTH as nat), 0, name);
    let with_mode = overwritten(named, 100, octal_field(permissions as nat, 6));
    let with_size = overwritten(with_mode, 124, octal_field(size, 10));
    let with_type = with_size.update(156, type_flag(permissions));
    let with_magic = overwritten(with_type, 257, ustar_magic());
    let with_version = overwritten(with_magic, 263, ustar_version());
    overwritten(with_version, 345, prefix)
}

/// The header of an entry: its fields, and their checksum as six octal
/// digits, a NUL and a space.
pub open spec fn header_block(path: Seq<u8>, permissions: u32, size: nat) -> Seq<u8> {
    let fields = header_fields(path, permissions, size);
    overwritten(fields, 148, octal_field(header_checksum(fields), 6)).update(154, 0u8).update(
        155,
        0x20u8,
    )
}

/// How many zeros bring content of `size` bytes up to whole blocks.
pub open spec fn padding(size: nat) -> nat {
    ((512 - (size as int) % 512) % 512) as nat
}

/// A path fits into a header: it has at most 255 bytes, and the split
/// leaves a name of at most 100 bytes, so that the name stays in its
/// field.
pub open spec fn path_fits(path: Seq<u8>) -> bool {
    path.len() <= LONGEST_PATH && path.len() - split_point(path) <= NAME_LENGTH
}

/// One entry: header, content and padding. A path that does not fit,
/// mode bits of more than seven octal digits and a size of more than
/// eleven are refused, in this order.
pub open spec fn tar_entry(path: Seq<u8>, permissions: u32, content: Seq<u8>) -> Result<
    Seq<u8>,
    Failure,
> {
    if !path_fits(path) {
        Err(Failure::PathTooLong { length: path.len() })
    } else if octal_field(permissions as nat, 6).len() > 8 {
        Err(Failure::FieldOverflow { value: permissions as nat })
    } else if octal_field(content.len(), 10).len() > 12 {
        Err(Failure::FieldOverflow { value: content.len() })
    } else {
        Ok(
            header_block(path, permissions, content.len()) + content + zeros(
                padding(content.len()),
            ),
        )
    }
}

/// Owner, group and time of every header are zero, and so is all that
/// lies behind the prefix.
pub proof fn lemma_header_zero_fields(path: Seq<u8>, permissions: u32, content: Seq<u8>, i: int)
    requires
        tar_entry(path, permissions, content) is Ok,
        108 <= i < 124 || 136 <= i < 148 || 500 <= i < 512,
    ensures
        tar_entry(path, permissions, content)->Ok_0[i] == 0,
{
    lemma_header_length(path, permissions, content.len());
    if path.len() > NAME_LENGTH {
        lemma_split_point(path);
    }
    let fields = header_fields(path, permissions, content.len());
    lemma_checksum_bound(fields, BLOCK_LENGTH as nat);
    lemma_checksum_digits(header_checksum(fields));
    assert(fields[i] == 0);
}

/// An entry fills whole blocks: one for the header, and as many as the
/// content needs.
pub proof fn lemma_entry_fills_blocks(path: Seq<u8>, permissions: u32, content: Seq<u8>)
    requires
        tar_entry(path, permissions, content) is Ok,
    ensures
        tar_entry(path, permissions, content)->Ok_0.len() == BLOCK_LENGTH + content.len()
            + padding(content.len()),
        tar_entry(path, permissions, content)->Ok_0.len() % 512 == 0,
        padding(content.len()) < BLOCK_LENGTH,
{
    lemma_header_length(path, permissions, content.len());
}

/// A header is one block long.
proof fn lemma_header_length(path: Seq<u8>, permissions: u32, size: nat)
    requires
        path_fits(path),
        octal_field(permissions as nat, 6).len() <= 8,
        octal_field(size, 10).len() <= 12,
    ensures
        header_block(path, permissions, size).len() == BLOCK_LENGTH,
{
    let fields = header_fields(path, permissions, size);
    if path.len() > NAME_LENGTH {
        lemma_split_point(path);
    }
    assert(fields.len() == BLOCK_LENGTH);
    lemma_checksum_bound(fields, BLOCK_LENGTH as nat);
    lemma_checksum_digits(header_checksum(fields));
}

/// A checksum is at most 255 for each byte.
proof fn lemma_checksum_bound(header: Seq<u8>, n: nat)
    ensures
        checksum_upto(header, n) <= 255 * n,
    decreases n,
{
    if n > 0 {
        lemma_checksum_bound(header, (n - 1) as nat);
    }
}

/// The entries of the first `n` listings, each path behind `top`, one
/// after the other; or the first failure among them.
pub open spec fn tar_entries(top: Seq<u8>, listings: Seq<ListingView>, n: nat) -> Result<
    Seq<u8>,
    Failure,
>
    decreases n,
{
    if n == 0 {
        Ok(Seq::empty())
    } else {
        match tar_entries(top, listings, (n - 1) as nat) {
            Err(failure) => Err(failure),
            Ok(earlier) => match tar_entry(
                top + listings[n - 1].path_bytes(),
                listings[n - 1].permissions,
                listings[n - 1].content,
            ) {
                Err(failure) => Err(failure),
                Ok(entry) => Ok(earlier + entry),
            },
        }
    }
}

/// The path of the top-level directory: the name of the directory and a
/// `/`, or `./` if it has no name.
pub open spec fn top_level(name: Option<Seq<u8>>) -> Seq<u8> {
    match name {
        Some(name) => name + seq![0x2fu8],
        None => seq![0x2eu8, 0x2fu8],
    }
}

/// The archive of a directory: the entry of the top-level directory, the
/// entries of the listings in their order, and two zero blocks.
pub open spec fn tar_bytes(top: Seq<u8>, permissions: u32, listings: Seq<ListingView>) -> Result<
    Seq<u8>,
    Failure,
> {
    match tar_entry(top, permissions, Seq::empty()) {
        Err(failure) => Err(failure),
        Ok(first) => match tar_entries(top, listings, listings.len()) {
            Err(failure) => Err(failure),
            Ok(entries) => Ok(first + entries + zeros((2 * BLOCK_LENGTH) as nat)),
        },
    }
}

/// Bytes or a failure as a mathematical value.
pub open spec fn bytes_view(outcome: Result<Vec<u8>, DecafError>) -> Result<Seq<u8>, Failure> {
    match outcome {
        Ok(bytes) => Ok(bytes@),
        Err(error) => Err(error@),
    }
}

/// The octal digits of `value`, with leading zeros up to `width` digits.
pub fn octal_digits(value: u64, width: usize) -> (digits: Vec<u8>)
    ensures
        digits@ == octal(value as nat, width as nat),
{
    let mut low: Vec<u8> = Vec::new();
    let ghost mut tail: Seq<u8> = Seq::empty();
    let mut rest: u64 = value;
    let mut left: usize = width;
    while !(rest < 8 && left <= 1)
        invariant
            octal(value as nat, width as nat) == octal(rest as nat, left as nat) + tail,
            low@.len() == tail.len(),
            forall|i: int| 0 <= i < low@.len() ==> low@[i] == tail[tail.len() - 1 - i],
        decreases rest, left,
    {
        let d: u8 = (0x30 + rest % 8) as u8;
        proof {
            tail = seq![d] + tail;
        }
        low.push(d);
        rest = rest / 8;
        if left > 0 {
            left = left - 1;
        }
    }
    let first: u8 = (0x30 + rest) as u8;
    low.push(first);
    let ghost all = seq![first] + tail;
    let count: usize = low.len();
    let mut digits: Vec<u8> = Vec::new();
    let mut i: usize = 0;
    while i < count
        invariant
            i <= count,
            count == low.len(),
            count == all.len(),
            digits@.len() == i,
            forall|j: int| 0 <= j < count ==> low@[j] == all[count - 1 - j],
            forall|j: int| 0 <= j < i ==> digits@[j] == all[j],
        decreases count - i,
    {
        digits.push(low[count - 1 - i]);
        i = i + 1;
    }
    digits
}

/// Writes `value` in octal, with `field_size - 1` digits or more, and a
/// NUL behind the digits, into the `field_length` bytes at `at`. A value
/// that needs more room is refused, and the buffer stays as it is.
pub fn write_octal(
    buffer: &mut Vec<u8>,
    at: usize,
    field_length: usize,
    value: u64,
    field_size: usize,
) -> (outcome: Result<(), DecafError>)
    requires
        field_size >= 1,
        at + field_length <= old(buffer).len(),
    ensures
        match outcome {
            Ok(_) => {
                &&& octal_field(value as nat, (field_size - 1) as nat).len() <= field_length
                &&& final(buffer)@ == overwritten(
                    old(buffer)@,
                    at as int,
                    octal_field(value as nat, (field_size - 1) as nat),
                )
            },
            Err(error) => {
                &&& octal_field(value as nat, (field_size - 1) as nat).len() > field_length
                &&& error == (DecafError::FieldOverflow { value })
                &&& final(buffer)@ == old(buffer)@
            },
        },
{
    let mut field = octal_digits(value, field_size - 1);
    if field.len() >= field_length {
        return Err(DecafError::FieldOverflow { value });
    }
    field.push(0);
    store_bytes(buffer, at, field.as_slice());
    Ok(())
}

/// The ustar checksum of a header: the sum of its bytes, with each byte
/// of the checksum field counted as a space.
pub fn calculate_checksum(header: &[u8]) -> (sum: u64)
    requires
        header.len() == BLOCK_LENGTH,
    ensures
        sum == header_checksum(header@),
        sum <= 255 * BLOCK_LENGTH,
{
    let mut sum: u64 = 0;
    let mut i: usize = 0;
    while i < BLOCK_LENGTH
        invariant
            i <= BLOCK_LENGTH,
            header.len() == BLOCK_LENGTH,
            sum == checksum_upto(header@, i as nat),
            sum <= 255 * i,
        decreases BLOCK_LENGTH - i,
    {
        if 148 <= i && i < 156 {
            sum = sum + 32;
        } else {
            sum = sum + header[i] as u64;
        }
        i = i + 1;
    }
    sum
}

/// Splits a path into name and prefix, in this order. A path of more
/// than 255 bytes is refused.
pub fn split_path(path: &[u8]) -> (outcome: Result<(&[u8], &[u8]), DecafError>)
    ensures
        match outcome {
            Ok((name, prefix)) => {
                &&& path@.len() <= LONGEST_PATH
                &&& 0 <= split_point(path@) <= path@.len()
                &&& name@ == path@.subrange(split_point(path@), path@.len() as int)
                &&& prefix@ == path@.subrange(0, split_point(path@))
                &&& prefix@.len() + NAME_LENGTH <= LONGEST_PATH
            },
            Err(error) => path@.len() > LONGEST_PATH && error == (DecafError::PathTooLong {
                length: path.len(),
            }),
        },
{
    let length: usize = path.len();
    if length > LONGEST_PATH {
        return Err(DecafError::PathTooLong { length });
    }
    let mut at: usize = if length <= NAME_LENGTH {
        0
    } else {
        length - NAME_LENGTH
    };
    let ghost limit = at as int;
    while at > 0 && path[at - 1] != 0x2f
        invariant
            at <= length,
            length == path.len(),
            at <= limit,
            after_last_slash(path@, limit) == after_last_slash(path@, at as int),
        decreases at,
    {
        at = at - 1;
    }
    Ok((slice_subrange(path, at, length), slice_subrange(path, 0, at)))
}

/// A checksum has six octal digits.
proof fn lemma_checksum_digits(sum: nat)
    requires
        sum <= 255 * BLOCK_LENGTH,
    ensures
        octal_field(sum, 6).len() == 7,
{
    reveal_with_fuel(octal, 8);
}

/// Builds one entry: the header of `path`, the content, and zeros up to
/// the next multiple of 512.
pub fn write_header(path: &[u8], permissions: u32, content: &[u8]) -> (outcome: Result<
    Vec<u8>,
    DecafError,
>)
    ensures
        bytes_view(outcome) == tar_entry(path@, permissions, content@),
{
    let (name, prefix) = match split_path(path) {
        Err(error) => {
            return Err(error);
        },
        Ok(parts) => parts,
    };
    if name.len() > NAME_LENGTH {
        return Err(DecafError::PathTooLong { length: path.len() });
    }
    let mut block: Vec<u8> = Vec::new();
    push_zeros(&mut block, BLOCK_LENGTH);
    store_bytes(&mut block, 0, name);
    match write_octal(&mut block, 100, 8, permissions as u64, 7) {
        Err(error) => {
            return Err(error);
        },
        Ok(_) => {},
    }
    match write_octal(&mut block, 124, 12, content.len() as u64, 11) {
        Err(error) => {
            return Err(error);
        },
        Ok(_) => {},
    }
    let flag: u8 = if has_directory_bit(permissions) {
        0x35
    } else {
        0x30
    };
    block.set(156, flag);
    let magic: [u8; 6] = [0x75, 0x73, 0x74, 0x61, 0x72, 0x00];
    store_bytes(&mut block, 257, magic.as_slice());
    let version: [u8; 2] = [0x30, 0x30];
    store_bytes(&mut block, 263, version.as_slice());
    store_bytes(&mut block, 345, prefix);
    let sum: u64 = calculate_checksum(block.as_slice());
    proof {
        lemma_checksum_digits(sum as nat);
    }
    match write_octal(&mut block, 148, 8, sum, 7) {
        Err(error) => {
            return Err(error);
        },
        Ok(_) => {},
    }
    block.set(154, 0);
    block.set(155, 0x20);
    push_bytes(&mut block, content);
    let fill: usize = (BLOCK_LENGTH - content.len() % BLOCK_LENGTH) % BLOCK_LENGTH;
    push_zeros(&mut block, fill);
    Ok(block)
}

/// Once an entry fails, the failure stands for every longer prefix.
pub proof fn lemma_tar_failure_stands(top: Seq<u8>, listings: Seq<ListingView>, k: nat, n: nat)
    requires
        k <= n,
        tar_entries(top, listings, k) is Err,
    ensures
        tar_entries(top, listings, n) == tar_entries(top, listings, k),
    decreases n - k,
{
    if k < n {
        lemma_tar_failure_stands(top, listings, k, (n - 1) as nat);
    }
}

/// The name of a directory as the emitter takes it: its UTF-8 bytes.
pub open spec fn name_bytes(name: Option<&str>) -> Option<Seq<u8>> {
    match name {
        Some(name) => Some(encode_utf8(name@)),
        None => None,
    }
}

/// Builds the ustar archive of a directory: the entry of the top-level
/// directory, named after the directory, and the entries of the listings
/// in the order given, each path behind the top-level directory.
pub fn create_tar(
    directory_name: Option<&str>,
    permissions: u32,
    listings: &Vec<Listing>,
) -> (outcome: Result<Vec<u8>, DecafError>)
    ensures
        bytes_view(outcome) == tar_bytes(
            top_level(name_bytes(directory_name)),
            permissions,
            views(listings@),
        ),
{
    let ghost all = views(listings@);
    let mut top: Vec<u8> = Vec::new();
    match directory_name {
        Some(name) => {
            push_bytes(&mut top, name.as_bytes());
            top.push(0x2f);
        },
        None => {
            top.push(0x2e);
            top.push(0x2f);
        },
    }
    assert(top@ =~= top_level(name_bytes(directory_name)));
    let nothing: Vec<u8> = Vec::new();
    assert(nothing@ =~= Seq::<u8>::empty());
    let mut archive = match write_header(top.as_slice(), permissions, nothing.as_slice()) {
        Err(error) => {
            return Err(error);
        },
        Ok(first) => first,
    };
    let ghost first = archive@;
    let count: usize = listings.len();
    let mut k: usize = 0;
    while k < count
        invariant
            all == views(listings@),
            count == listings.len(),
            k <= count,
            top@ == top_level(name_bytes(directory_name)),
            tar_entry(top@, permissions, Seq::empty()) == Ok::<Seq<u8>, Failure>(first),
            tar_entries(top@, all, k as nat) matches Ok(entries) && archive@ == first + entries,
        decreases count - k,
    {
        let listing = &listings[k];
        let mut path: Vec<u8> = Vec::new();
        push_bytes(&mut path, top.as_slice());
        push_bytes(&mut path, listing.path.as_str().as_bytes());
        let mut entry = match write_header(
            path.as_slice(),
            listing.permissions,
            listing.content.as_slice(),
        ) {
            Err(error) => {
                proof {
                    lemma_tar_failure_stands(top@, all, (k + 1) as nat, count as nat);
                }
                return Err(error);
            },
            Ok(entry) => entry,
        };
        archive.append(&mut entry);
        k = k + 1;
    }
    push_zeros(&mut archive, 2 * BLOCK_LENGTH);
    Ok(archive)
}

/// The gzip level of compressed archives: the fastest.
pub const GZIP_LEVEL: u32 = 1;

/// The gzipped archive of a directory: the failure of the tar archive if
/// it has one; else the gzip stream of the tar archive, with a header
/// that carries neither time nor operating system, and an empty file
/// name and extra field; or `Io` if the compressor gives no stream.
pub open spec fn tar_gz_bytes(
    top: Seq<u8>,
    permissions: u32,
    listings: Seq<ListingView>,
) -> Result<Seq<u8>, Failure> {
    match tar_bytes(top, permissions, listings) {
        Err(failure) => Err(failure),
        Ok(archive) => if gzip_compresses(
            archive,
            Seq::empty(),
            Seq::empty(),
            0,
            0,
            GZIP_LEVEL,
        ) {
            Ok(gzip_stream(archive, Seq::empty(), Seq::empty(), 0, 0, GZIP_LEVEL))
        } else {
            Err(Failure::Io)
        },
    }
}

/// Decides on a compressed stream once the compressor has answered: a
/// failure of the compressor becomes `Io`, and a stream is passed on.
pub fn accept_stream(outcome: Result<Vec<u8>, String>) -> (accepted: Result<Vec<u8>, DecafError>)
    ensures
        match outcome {
            Ok(stream) => accepted == Ok::<Vec<u8>, DecafError>(stream),
            Err(text) => accepted == Err::<Vec<u8>, DecafError>(DecafError::Io { message: text }),
        },
{
    match outcome {
        Ok(stream) => Ok(stream),
        Err(message) => Err(DecafError::Io { message }),
    }
}

/// Builds the ustar archive of a directory and compresses it with gzip.
/// The gzip header carries neither time nor operating system, and an
/// empty file name and extra field, so that equal archives give equal
/// streams.
pub fn create_tar_gz(
    directory_name: Option<&str>,
    permissions: u32,
    listings: &Vec<Listing>,
) -> (outcome: Result<Vec<u8>, DecafError>)
    ensures
        bytes_view(outcome) == tar_gz_bytes(
            top_level(name_bytes(directory_name)),
            permissions,
            views(listings@),
        ),
{
    let archive = match create_tar(directory_name, permissions, listings) {
        Err(error) => {
            return Err(error);
        },
        Ok(archive) => archive,
    };
    let nothing: Vec<u8> = Vec::new();
    accept_stream(
        gzip_compress(
            archive.as_slice(),
            nothing.as_slice(),
            nothing.as_slice(),
            0,
            0,
            GZIP_LEVEL,
        ),
    )
}

/// Equal listings under equal names give equal gzipped archives: two
/// answers for the same directory are the same, a failure or the same
/// bytes.
pub proof fn lemma_tar_gz_deterministic(
    top: Seq<u8>,
    permissions: u32,
    listings: Seq<ListingView>,
    first: Result<Vec<u8>, DecafError>,
    second: Result<Vec<u8>, DecafError>,
)
    requires
        bytes_view(first) == tar_gz_bytes(top, permissions, listings),
        bytes_view(second) == tar_gz_bytes(top, permissions, listings),
    ensures
        bytes_view(first) == bytes_view(second),
        first is Ok ==> second is Ok && first->Ok_0@ == second->Ok_0@,
{
}

} // verus!
