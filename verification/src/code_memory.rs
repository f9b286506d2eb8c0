//! Memory that holds generated code: writable while it is filled, then
//! sealed and executable, never both.

use vstd::prelude::*;

verus! {

/// `memmap2::MmapMut`: an anonymous region of memory that can be read and
/// written. Nothing is known of it but its bytes, `writable_bytes`.
#[verifier::external_type_specification]
#[verifier::external_body]
pub struct ExMmapMut(memmap2::MmapMut);

/// `memmap2::Mmap`: a region of memory that can no longer be written.
/// Nothing is known of it but its bytes, `executable_bytes`.
#[verifier::external_type_specification]
#[verifier::external_body]
pub struct ExMmap(memmap2::Mmap);

/// `std::io::Error`: the system's reason for a refusal. It is handed on and
/// never looked into.
#[verifier::external_type_specification]
#[verifier::external_body]
pub struct ExIoError(std::io::Error);

/// The bytes of a writable region.
pub uninterp spec fn writable_bytes(region: memmap2::MmapMut) -> Seq<u8>;

/// The bytes of an executable region.
pub uninterp spec fn executable_bytes(region: memmap2::Mmap) -> Seq<u8>;

/// `memmap2::MmapMut::map_anon`: asks the system for an anonymous writable
/// region. Whether it is granted is the system's decision; a region that is
/// granted has the length asked for.
#[verifier::external_body]
fn map_anon(length: usize) -> (mapped: Result<memmap2::MmapMut, std::io::Error>)
    ensures
        mapped matches Ok(region) ==> writable_bytes(region).len() == length,
{
    memmap2::MmapMut::map_anon(length)
}

/// `copy_from_slice` on the bytes of a `memmap2::MmapMut`: afterwards the
/// region holds `bytes`. The lengths must agree.
#[verifier::external_body]
fn fill(region: &mut memmap2::MmapMut, bytes: &Vec<u8>)
    requires
        writable_bytes(*old(region)).len() == bytes@.len(),
    ensures
        writable_bytes(*final(region)) == bytes@,
{
    region.copy_from_slice(bytes)
}

/// `memmap2::MmapMut::make_exec`: gives up write access to the region and
/// asks for it to be executable. Whether that is granted is the system's
/// decision; the executable region holds what the writable one held.
#[verifier::external_body]
fn make_exec(region: memmap2::MmapMut) -> (sealed: Result<memmap2::Mmap, std::io::Error>)
    ensures
        sealed matches Ok(code) ==> executable_bytes(code) == writable_bytes(region),
{
    region.make_exec()
}

/// Fills the region that the system granted with `code` and seals it:
/// from that moment the region can be executed and no longer written.
/// Where the system granted no region, its refusal is handed on as it is;
/// where it refuses the seal, that refusal is.
pub fn seal(mapped: Result<memmap2::MmapMut, std::io::Error>, code: &Vec<u8>) -> (sealed: Result<
    memmap2::Mmap,
    std::io::Error,
>)
    requires
        mapped matches Ok(region) ==> writable_bytes(region).len() == code@.len(),
    ensures
        mapped matches Err(e) ==> sealed == Err::<memmap2::Mmap, std::io::Error>(e),
        sealed matches Ok(region) ==> mapped is Ok && executable_bytes(region) == code@,
{
    match mapped {
        Ok(mut region) => {
            fill(&mut region, code);
            make_exec(region)
        },
        Err(e) => Err(e),
    }
}

/// Places `code` in memory that can be executed.
///
/// The code is copied into a fresh writable region, which is then sealed.
/// Whether the system grants the region and the seal is its decision; a
/// region that is returned holds exactly `code`.
pub fn load(code: &Vec<u8>) -> (loaded: Result<memmap2::Mmap, std::io::Error>)
    ensures
        loaded matches Ok(region) ==> executable_bytes(region) == code@,
{
    seal(map_anon(code.len()), code)
}

} // verus!
