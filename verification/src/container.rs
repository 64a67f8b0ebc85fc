//! Trusted interface to the package-container collaborators.
//!
//! The container format (XAR), the per-component metadata, and the payload
//! archive framing (cpio, with decompression) are parsed by the
//! `apple-flat-package` and `cpio-archive` crates; each call the extraction
//! logic makes into them stands behind one of the wrappers here. The
//! wrappers convert the crates' values to and from plain values of this
//! library and state only what those crates' documentation promises.

use vstd::prelude::*;
use apple_flat_package::component_package::{ComponentPackageReader, CpioReader};
use apple_flat_package::reader::PkgReader;
use std::io::Cursor;
use std::io::Read;

verus! {

/// A failure reported by one of the package-container collaborators,
/// carried as its rendered message.
#[derive(Clone, Debug, PartialEq, Eq)]
pub struct PkgError {
    pub message: String,
}

/// The flavor of an opened package: a single installable component, or a
/// product bundling several.
#[derive(Clone, Copy, Debug, PartialEq, Eq, Structural)]
pub enum Flavor {
    Component,
    Product,
}

/// Informational component metadata, logged by callers and never used for
/// control decisions.
#[derive(Clone, Debug, PartialEq, Eq)]
pub struct ComponentInfo {
    pub identifier: String,
    pub number_of_files: u64,
    pub install_kbytes: u64,
}

/// The header of one payload archive entry.
#[derive(Clone, Debug, PartialEq, Eq)]
pub struct EntryHeader {
    pub name: String,
    pub file_size: u64,
    pub mode: u32,
}

#[verifier::external_type_specification]
#[verifier::external_body]
pub struct ExComponentPackageReader(ComponentPackageReader);

/// Whether the container parser accepts these bytes: what
/// `PkgReader::new` returns is a function of the bytes alone, named here
/// so that callers can speak of the parse outcome without restating the
/// format.
pub uninterp spec fn xar_opens(data: Seq<u8>) -> bool;

/// The container header declares sizes the parser allocates blindly
/// before validating anything: the header-size field (big-endian, bytes
/// 4 and 5) must cover the fixed 28-byte header, and the declared
/// uncompressed table-of-contents length (big-endian, bytes 16 to 23)
/// must be small enough to allocate on any target. Inputs shorter than a
/// header are admissible: the parser rejects them cleanly.
pub open spec fn spec_header_admissible(b: Seq<u8>) -> bool {
    b.len() < 28 || {
        &&& 256 * (b[4] as int) + (b[5] as int) >= 28
        &&& b[16] == 0 && b[17] == 0 && b[18] == 0 && b[19] == 0
        &&& b[20] < 0x80
    }
}

/// Whether the container header is admissible in the sense of
/// `spec_header_admissible`.
pub fn header_admissible(data: &Vec<u8>) -> (r: bool)
    ensures
        r == spec_header_admissible(data@),
{
    if data.len() < 28 {
        return true;
    }
    let size: u32 = (data[4] as u32) * 256 + (data[5] as u32);
    if size < 28 {
        return false;
    }
    if data[16] != 0 || data[17] != 0 || data[18] != 0 || data[19] != 0 {
        return false;
    }
    if data[20] >= 0x80 {
        return false;
    }
    true
}

/// An opened package container. Holds the outside crate's reader over the
/// package bytes; opaque to the verifier.
#[verifier::external_body]
pub struct PackageSource {
    inner: PkgReader<Cursor<Vec<u8>>>,
}

/// An opened payload archive: a cursor over the sequence of entries of one
/// component's payload. Opaque to the verifier; it is read through
/// `payload_read_next`, `payload_read_chunk` and `payload_finish`.
#[verifier::external_body]
pub struct PayloadSource {
    inner: CpioReader,
}

/// Relies on `apple_flat_package::reader::PkgReader::new`: parses the XAR
/// container from the given bytes and detects the package flavor, failing
/// on a malformed container; the outcome is a function of the bytes,
/// named `xar_opens`. The parser sizes buffers from the raw header before
/// validating it, so `requires` admits only headers whose declared sizes
/// it can allocate.
#[verifier::external_body]
pub(crate) fn open_package(data: Vec<u8>) -> (r: Result<PackageSource, PkgError>)
    requires
        spec_header_admissible(data@),
    ensures
        r is Ok <==> xar_opens(data@),
{
    match PkgReader::new(Cursor::new(data)) {
        Ok(inner) => Ok(PackageSource { inner }),
        Err(e) => Err(PkgError { message: format!("{}", e) }),
    }
}

/// Relies on `PkgReader::flavor`: whether the opened container is a single
/// component or a product.
#[verifier::external_body]
pub(crate) fn package_flavor(p: &PackageSource) -> (f: Flavor) {
    match p.inner.flavor() {
        apple_flat_package::reader::PkgFlavor::Component => Flavor::Component,
        apple_flat_package::reader::PkgFlavor::Product => Flavor::Product,
    }
}

/// Relies on `PkgReader::root_component`: resolves the component at the
/// container root, `None` when no component files stand there.
#[verifier::external_body]
pub(crate) fn root_component(p: &mut PackageSource) -> (r: Result<
    Option<ComponentPackageReader>,
    PkgError,
>) {
    match p.inner.root_component() {
        Ok(c) => Ok(c),
        Err(e) => Err(PkgError { message: format!("{}", e) }),
    }
}

/// Relies on `PkgReader::component_packages`: resolves every `.pkg`
/// component of a product container.
#[verifier::external_body]
pub(crate) fn component_packages(p: &mut PackageSource) -> (r: Result<
    Vec<ComponentPackageReader>,
    PkgError,
>) {
    match p.inner.component_packages() {
        Ok(cs) => Ok(cs),
        Err(e) => Err(PkgError { message: format!("{}", e) }),
    }
}

/// Relies on `ComponentPackageReader::from_file_data`: builds a component
/// from a raw `Payload` archive, with no metadata files; with no
/// `PackageInfo` to parse it cannot fail.
#[verifier::external_body]
pub(crate) fn component_from_payload(payload: Vec<u8>) -> (r: Result<
    ComponentPackageReader,
    PkgError,
>)
    ensures
        r is Ok,
{
    match ComponentPackageReader::from_file_data(None, None, Some(payload), None) {
        Ok(c) => Ok(c),
        Err(e) => Err(PkgError { message: format!("{}", e) }),
    }
}

/// Relies on `ComponentPackageReader::package_info`: the parsed
/// `PackageInfo` metadata, reduced to the fields reported in diagnostics;
/// `None` when the metadata or its payload summary is absent.
#[verifier::external_body]
pub(crate) fn package_info_summary(c: &ComponentPackageReader) -> (r: Option<ComponentInfo>) {
    match c.package_info() {
        Some(pi) => match &pi.payload {
            Some(pl) => Some(ComponentInfo {
                identifier: pi.identifier.clone(),
                number_of_files: pl.number_of_files,
                install_kbytes: pl.install_kbytes,
            }),
            None => None,
        },
        None => None,
    }
}

/// Relies on `ComponentPackageReader::payload_reader`: opens the
/// component's `Payload` archive, `None` when the component carries no
/// payload, an error when the archive cannot be framed.
#[verifier::external_body]
pub(crate) fn payload_reader(c: &ComponentPackageReader) -> (r: Result<
    Option<PayloadSource>,
    PkgError,
>) {
    match c.payload_reader() {
        Ok(Some(inner)) => Ok(Some(PayloadSource { inner })),
        Ok(None) => Ok(None),
        Err(e) => Err(PkgError { message: format!("{}", e) }),
    }
}

/// Relies on `cpio_archive::CpioReader::read_next`: advances to the next
/// archive entry, `None` at the end of the archive; the returned header's
/// name, declared size and mode bits are copied out as plain values.
#[verifier::external_body]
pub(crate) fn payload_read_next(p: &mut PayloadSource) -> (r: Result<
    Option<EntryHeader>,
    PkgError,
>) {
    match p.inner.read_next() {
        Ok(Some(h)) => Ok(Some(EntryHeader {
            name: h.name().to_string(),
            file_size: h.file_size(),
            mode: h.mode(),
        })),
        Ok(None) => Ok(None),
        Err(e) => Err(PkgError { message: format!("{}", e) }),
    }
}

/// Relies on `std::io::Read::read` on the payload reader, which reads from
/// the current entry's body only: returns at most `max` bytes, and no
/// bytes exactly at the end of the entry's body.
#[verifier::external_body]
pub(crate) fn payload_read_chunk(p: &mut PayloadSource, max: usize) -> (r: Result<
    Vec<u8>,
    PkgError,
>)
    ensures
        r matches Ok(v) ==> v@.len() <= max,
{
    let mut buf = vec![0u8; max];
    match p.inner.read(&mut buf) {
        Ok(n) => {
            buf.truncate(n);
            Ok(buf)
        },
        Err(e) => Err(PkgError { message: format!("{}", e) }),
    }
}

/// Relies on `cpio_archive::CpioReader::finish`: drains the rest of the
/// current entry's body so that the next header becomes readable.
#[verifier::external_body]
pub(crate) fn payload_finish(p: &mut PayloadSource) -> (r: Result<(), PkgError>) {
    match p.inner.finish() {
        Ok(()) => Ok(()),
        Err(e) => Err(PkgError { message: format!("{}", e) }),
    }
}

} // verus!
